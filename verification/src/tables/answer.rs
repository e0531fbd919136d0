//! Answering queries: which way to find the rows.

use vstd::prelude::*;

use crate::btree::walk::cursor_view;
use crate::btree::walker::past;
use crate::bytes::{copy_bytes, has_prefix, lemma_lt_common_prefix, lemma_lt_total, put_bytes};
use crate::cache::RecordCache;
use crate::cursor::{cursor_of, points_at, Cursor, CursorError, CursorView};
use crate::filter::{begins, has_value, pins_hold, verdict, Filter};
use crate::json::{field_of, Json, JsonView};
use crate::keys::{data_key, ordering_key, value_key};
use crate::order::{
    encode_order_value, encode_string_prefix, lemma_code_prefix, lemma_text_prefix, order_code, text_prefix,
    TAG_NOTHING,
};
use crate::tables::candidates::{find_prefix, prefix_pin, selection_of, text_helps, text_narrowed};
use crate::tables::lists::{covers, data_defs, data_find, lemma_covers};
use crate::tables::lower::nodes_view;
use crate::tables::model::{DbView, Nodes};
use crate::tables::query::{
    accepted, all_judged, answers, askable, at_listed, capped, cursor_at, cursor_option, judgeable, looks_through,
    page_of, paged, rank_by, start_of, stops_at, stops_in, to_skip, unjudged, wanted, window, Query, QueryError,
    QueryPage, QueryView,
};
use crate::tables::rows::{
    belongs, is_listing, law_listing_is_unique, lemma_reranked, live, rank, scanned, under_prefix, RankBy,
};
use crate::tables::sorted::{is_narrowed, lemma_listing_after, of_value, too_many, GatherError};
use crate::tables::{agrees, Tables};
use crate::text::{lemma_utf8_injective, str_eq, str_view, utf8};
use crate::types::{Node, NodeView};

verus! {

/// The field to order by: none for the order of addresses.
pub open spec fn order_field(order: Option<Seq<char>>) -> Option<Seq<char>> {
    match order {
        Some(name) => if name == "id"@ {
            None
        } else {
            Some(name)
        },
        None => None,
    }
}

/// The cursor that a query is given; an empty one is none.
pub open spec fn given_cursor(after: Option<Seq<char>>) -> Result<Option<CursorView>, CursorError> {
    match after {
        None => Ok(None),
        Some(s) => if s.len() == 0 {
            Ok(None)
        } else {
            match cursor_of(s) {
                Ok(c) => Ok(Some(c)),
                Err(e) => Err(e),
            }
        },
    }
}

/// No cursor is given, well formed or not.
pub open spec fn no_cursor(after: Option<Seq<char>>) -> bool {
    after matches Some(s) ==> s.len() == 0
}

/// The rows have to be sorted in memory: neither an index over the field nor
/// one over a value that is pinned down gives the order.
pub open spec fn sorts(db: DbView, q: QueryView, order: Option<Seq<char>>) -> bool {
    &&& order is Some
    &&& q.kind matches Some(k) ==> covers(db.data, k, order->0) is None
    &&& selection_of(db, q.kind, q.filter) matches Some((x, p)) ==> db.data[x].field != order->0
}

/// What an index key begins with where the condition says what the field's
/// text begins with.
pub open spec fn field_prefix(filter: Option<Filter>, name: Seq<char>) -> Seq<u8> {
    match filter {
        Some(f) => match prefix_pin(f, name, 0) {
            Some(p) => text_prefix(f.prefixes@[p].1@),
            None => Seq::empty(),
        },
        None => Seq::empty(),
    }
}

/// The rows that a page looks through: those of the value that the condition
/// pins down; else those that a text index leaves, or all of the kind or
/// owner; in the order of an indexed field, those of the index. Where the
/// rows are sorted in memory, all of the source.
pub open spec fn examines(
    page: QueryPage,
    db: DbView,
    q: QueryView,
    want: spec_fn(NodeView) -> bool,
    sure: spec_fn(NodeView) -> bool,
    name: Option<Seq<char>>,
    cursor: Option<CursorView>,
    desc: bool,
    enough: nat,
    cap: nat,
) -> bool {
    let (x, p) = selection_of(db, q.kind, q.filter)->0;
    if selection_of(db, q.kind, q.filter) is Some && (name is None || name == Some(db.data[x].field)) {
        looks_through(
            page,
            db.nodes,
            of_value(db, q, x, p),
            rank_by(name, desc),
            cursor,
            desc,
            want,
            sure,
            enough,
        )
    } else if name is None {
        ||| !text_helps(db, q.kind, q.filter, cap) && looks_through(
            page,
            db.nodes,
            scanned(q.kind, q.owner),
            RankBy::Address,
            cursor,
            desc,
            want,
            sure,
            enough,
        )
        ||| q.kind is Some && q.filter is Some && exists|list: Seq<String>| {
            &&& list.len() <= cap
            &&& text_narrowed(db, q.kind->0, q.filter->0, list)
            &&& #[trigger] looks_through(
                page,
                db.nodes,
                at_listed(list),
                RankBy::Address,
                cursor,
                desc,
                want,
                sure,
                enough,
            )
        }
    } else if q.kind is Some && covers(db.data, q.kind->0, name->0) is Some {
        looks_through(
            page,
            db.nodes,
            under_prefix(q.kind->0, name->0, field_prefix(q.filter, name->0)),
            rank_by(name, desc),
            cursor,
            desc,
            want,
            sure,
            enough,
        )
    } else {
        &&& all_judged(db.nodes, q, sure)
        &&& exists|rows: Seq<NodeView>| #[trigger]
            is_narrowed(rows, db, q, want, cap) && page.examined == capped(rows.len())
    }
}

/// A row that a page would look at cannot be judged, and none before it gives
/// the page enough; where the rows are sorted in memory, none before it is one
/// too many.
pub open spec fn refuses<F: Fn(&Filter, &Node) -> Result<bool, String>>(
    message: Seq<char>,
    db: DbView,
    eval: F,
    q: QueryView,
    name: Option<Seq<char>>,
    cursor: Option<CursorView>,
    desc: bool,
    enough: nat,
    cap: nat,
) -> bool {
    let (x, p) = selection_of(db, q.kind, q.filter)->0;
    if selection_of(db, q.kind, q.filter) is Some && (name is None || name == Some(db.data[x].field)) {
        stops_in(db.nodes, eval, q, of_value(db, q, x, p), rank_by(name, desc), cursor, desc, enough, message)
    } else if name is None {
        ||| !text_helps(db, q.kind, q.filter, cap) && stops_in(
            db.nodes,
            eval,
            q,
            scanned(q.kind, q.owner),
            RankBy::Address,
            cursor,
            desc,
            enough,
            message,
        )
        ||| q.kind is Some && q.filter is Some && exists|list: Seq<String>| {
            &&& list.len() <= cap
            &&& text_narrowed(db, q.kind->0, q.filter->0, list)
            &&& #[trigger] stops_in(
                db.nodes,
                eval,
                q,
                at_listed(list),
                RankBy::Address,
                cursor,
                desc,
                enough,
                message,
            )
        }
    } else if q.kind is Some && covers(db.data, q.kind->0, name->0) is Some {
        stops_in(
            db.nodes,
            eval,
            q,
            under_prefix(q.kind->0, name->0, field_prefix(q.filter, name->0)),
            rank_by(name, desc),
            cursor,
            desc,
            enough,
            message,
        )
    } else {
        exists|rows: Seq<NodeView>| #[trigger]
            is_narrowed(rows, db, q, wanted(eval, q), cap) && stops_at(rows, eval, q, cap, message)
    }
}

/// Only a value has the code of a value.
proof fn lemma_some_code(v: Option<JsonView>, w: JsonView)
    requires
        order_code(v) == order_code(Some(w)),
    ensures
        v is Some,
{
    assert(order_code(None)[0] == TAG_NOTHING);
    assert(order_code(Some(w))[0] != TAG_NOTHING);
}

/// What a query answers.
pub open spec fn answered<F: Fn(&Filter, &Node) -> Result<bool, String>>(
    r: Result<QueryPage, QueryError>,
    db: DbView,
    eval: F,
    q: QueryView,
    order: Option<Seq<char>>,
    desc: bool,
    after: Option<Seq<char>>,
    limit: nat,
    offset: nat,
    max_offset: nat,
    cap: nat,
) -> bool {
    let name = order_field(order);
    let refused = no_cursor(after) && offset > max_offset;
    match r {
        Ok(page) => {
            &&& !refused
            &&& given_cursor(after) is Ok
            &&& sorts(db, q, name) ==> !too_many(db.nodes, wanted(eval, q), cap)
            &&& answers(
                page,
                db.nodes,
                wanted(eval, q),
                rank_by(name, desc),
                given_cursor(after)->Ok_0,
                desc,
                to_skip(given_cursor(after)->Ok_0, offset),
                limit,
            )
            &&& examines(
                page,
                db,
                q,
                wanted(eval, q),
                judgeable(eval, q),
                name,
                given_cursor(after)->Ok_0,
                desc,
                to_skip(given_cursor(after)->Ok_0, offset) + limit,
                cap,
            )
        },
        Err(QueryError::Offset { offset: n, max }) => refused && n == offset && max == max_offset,
        Err(QueryError::Cursor(e)) => !refused && given_cursor(after) == Err::<Option<CursorView>, CursorError>(e),
        Err(QueryError::Condition { message }) => {
            &&& !refused
            &&& given_cursor(after) is Ok
            &&& unjudged(eval, q, db.nodes, message@)
            &&& refuses(
                message@,
                db,
                eval,
                q,
                name,
                given_cursor(after)->Ok_0,
                desc,
                to_skip(given_cursor(after)->Ok_0, offset) + limit,
                cap,
            )
        },
        Err(QueryError::ScanLimit { max }) => {
            &&& !refused
            &&& given_cursor(after) is Ok
            &&& max == cap
            &&& sorts(db, q, name)
            &&& too_many(db.nodes, wanted(eval, q), cap)
        },
        Err(QueryError::Failed) => false,
    }
}

fn judged_page(r: Result<QueryPage, String>) -> (out: Result<QueryPage, QueryError>)
    ensures
        match r {
            Ok(page) => out == Ok::<QueryPage, QueryError>(page),
            Err(message) => out == Err::<QueryPage, QueryError>(QueryError::Condition { message }),
        },
{
    match r {
        Ok(page) => Ok(page),
        Err(message) => Err(QueryError::Condition { message }),
    }
}

impl Tables {
    /// The data index and the position of the value to look up in it, where
    /// the condition pins a value down and the order allows it.
    fn equality_prefix_plan<'q>(&self, q: &Query<'q>, order: Option<&str>) -> (r: Option<(usize, usize)>)
        requires
            self.inv(),
        ensures
            match r {
                Some((x, p)) => {
                    &&& selection_of(self@, q@.kind, q@.filter) == Some((x as int, p as int))
                    &&& x < self@.data.len()
                    &&& q@.kind == Some(self@.data[x as int].kind)
                    &&& q.filter is Some
                    &&& p < q.filter->0.equals@.len()
                    &&& q.filter->0.equals@[p as int].0@ == self@.data[x as int].field
                    &&& order matches Some(name) ==> name@ == self@.data[x as int].field
                },
                None => selection_of(self@, q@.kind, q@.filter) matches Some((x, p)) ==> order is Some && order->0@
                    != self@.data[x].field,
            },
    {
        let (x, p) = match self.equality_selection(q.kind, q.filter) {
            Some(found) => found,
            None => { return None },
        };
        proof {
            assert(data_defs(self.data@)[x as int] == self.data@[x as int].def@);
        }
        match order {
            None => Some((x, p)),
            Some(name) => if str_eq(name, &self.data[x].def.field) {
                Some((x, p))
            } else {
                None
            },
        }
    }

    /// The data index over the field to order by and what the condition says
    /// the field's text begins with.
    fn string_prefix_plan<'q>(&self, q: &Query<'q>, order: Option<&str>) -> (r: Option<(usize, usize)>)
        requires
            self.inv(),
        ensures
            match r {
                Some((x, p)) => {
                    &&& x < self@.data.len()
                    &&& q@.kind == Some(self@.data[x as int].kind)
                    &&& order is Some
                    &&& order->0@ == self@.data[x as int].field
                    &&& covers(self@.data, self@.data[x as int].kind, order->0@) is Some
                    &&& q.filter is Some
                    &&& p < q.filter->0.prefixes@.len()
                    &&& prefix_pin(*q.filter->0, order->0@, 0) == Some(p as int)
                    &&& q.filter->0.prefixes@[p as int].0@ == self@.data[x as int].field
                },
                None => q@.kind is Some && q.filter is Some && order is Some && covers(
                    self@.data,
                    q@.kind->0,
                    order->0@,
                ) is Some ==> prefix_pin(*q.filter->0, order->0@, 0) is None,
            },
    {
        let (kind, filter, name) = match (q.kind, q.filter, order) {
            (Some(kind), Some(filter), Some(name)) => (kind, filter, name),
            _ => { return None },
        };
        proof {
            lemma_covers(data_defs(self.data@), kind@, name@);
        }
        let x = match data_find(&self.data, kind, name) {
            Some(x) => x,
            None => { return None },
        };
        match find_prefix(filter, name) {
            Some(p) => Some((x, p)),
            None => None,
        }
    }

    /// A page in the order of a field that an index covers.
    fn query_by_data_index<'q, F: Fn(&Filter, &Node) -> Result<bool, String>>(
        &self,
        x: usize,
        q: &Query<'q>,
        cursor: &Option<Cursor>,
        desc: bool,
        limit: usize,
        offset: usize,
        eval: &F,
        cache: &mut RecordCache,
    ) -> (r: Result<QueryPage, String>)
        requires
            self.inv(),
            x < self@.data.len(),
            q@.kind == Some(self@.data[x as int].kind),
            old(cache).wf(),
            agrees(old(cache)@, self.heap()),
            askable(*eval, q@),
        ensures
            final(cache).wf(),
            agrees(final(cache)@, self.heap()),
            paged(
                r,
                self@.nodes,
                *eval,
                q@,
                under_prefix(self@.data[x as int].kind, self@.data[x as int].field, Seq::empty()),
                rank_by(Some(self@.data[x as int].field), desc),
                cursor_option(*cursor),
                desc,
                offset as nat,
                limit as nat,
            ),
    {
        let ghost d = self@.data[x as int];
        let ghost pick = under_prefix(d.kind, d.field, Seq::empty());
        proof {
            assert(data_defs(self.data@)[x as int] == self.data@[x as int].def@);
            assert forall|n: NodeView| live(self@.nodes, n) && #[trigger] wanted(*eval, q@)(n) implies pick(n) by {
                assert(value_key(field_of(n.data, d.field), n.address).take(0) =~= Seq::<u8>::empty());
            }
        }
        let order: Option<&str> = Some(&self.data[x].def.field);
        let rows = if desc {
            let from: Option<(Option<&Json>, &str)> = match cursor {
                Some(c) => Some((c.o.as_ref(), c.a.as_str())),
                None => None,
            };
            self.scan_down(x, from)
        } else {
            let after: Option<Vec<u8>> = match cursor {
                Some(c) => Some(data_key(c.o.as_ref(), &c.a)),
                None => None,
            };
            let prefix: Vec<u8> = Vec::new();
            proof {
                assert(prefix@ =~= Seq::<u8>::empty());
            }
            self.scan_data(x, prefix, after, false)
        };
        self.page_from(rows, q, cursor, order, desc, limit, offset, eval, cache, Ghost(pick))
    }

    /// A page from the entries of a data index that begin with `prefix`, which
    /// all have a value, in the order of the index.
    fn query_by_key_prefix<'q, F: Fn(&Filter, &Node) -> Result<bool, String>>(
        &self,
        x: usize,
        prefix: Vec<u8>,
        q: &Query<'q>,
        cursor: &Option<Cursor>,
        desc: bool,
        limit: usize,
        offset: usize,
        eval: &F,
        cache: &mut RecordCache,
    ) -> (r: Result<QueryPage, String>)
        requires
            self.inv(),
            x < self@.data.len(),
            q@.kind == Some(self@.data[x as int].kind),
            old(cache).wf(),
            agrees(old(cache)@, self.heap()),
            askable(*eval, q@),
            forall|n: NodeView| #[trigger]
                wanted(*eval, q@)(n) ==> has_prefix(
                    value_key(field_of(n.data, self@.data[x as int].field), n.address),
                    prefix@,
                ),
            forall|n: NodeView| #[trigger]
                under_prefix(self@.data[x as int].kind, self@.data[x as int].field, prefix@)(n) ==> field_of(
                    n.data,
                    self@.data[x as int].field,
                ) is Some,
        ensures
            final(cache).wf(),
            agrees(final(cache)@, self.heap()),
            paged(
                r,
                self@.nodes,
                *eval,
                q@,
                under_prefix(self@.data[x as int].kind, self@.data[x as int].field, prefix@),
                rank_by(Some(self@.data[x as int].field), desc),
                cursor_option(*cursor),
                desc,
                offset as nat,
                limit as nat,
            ),
    {
        let ghost d = self@.data[x as int];
        let ghost pick = under_prefix(d.kind, d.field, prefix@);
        let ghost by = rank_by(Some(d.field), desc);
        let after: Option<Vec<u8>> = match cursor {
            Some(c) => Some(ordering_key(c.o.as_ref(), &c.a, desc)),
            None => None,
        };
        let ghost start = cursor_view(after);
        proof {
            assert(data_defs(self.data@)[x as int] == self.data@[x as int].def@);
            assert(start == start_of(by, cursor_option(*cursor)));
        }
        let order: Option<&str> = Some(&self.data[x].def.field);
        let rows = self.scan_data(x, prefix, after, desc);
        proof {
            assert forall|n: NodeView| #[trigger] pick(n) implies rank(by, n) == rank(RankBy::Field(d.field), n) by {}
            lemma_reranked(rows.all(), self@.nodes, pick, RankBy::Field(d.field), by, start, start, desc);
        }
        self.page_from(rows, q, cursor, order, desc, limit, offset, eval, cache, Ghost(pick))
    }

    /// A page from the entries of one value in a data index, in the order of
    /// the index or in that of the addresses: either way the order of the
    /// entries.
    fn query_by_data_prefix<'q, F: Fn(&Filter, &Node) -> Result<bool, String>>(
        &self,
        x: usize,
        p: usize,
        ordered: bool,
        q: &Query<'q>,
        cursor: &Option<Cursor>,
        desc: bool,
        limit: usize,
        offset: usize,
        eval: &F,
        cache: &mut RecordCache,
    ) -> (r: Result<QueryPage, String>)
        requires
            self.inv(),
            x < self@.data.len(),
            q@.kind == Some(self@.data[x as int].kind),
            old(cache).wf(),
            agrees(old(cache)@, self.heap()),
            askable(*eval, q@),
            q.filter is Some,
            p < q.filter->0.equals@.len(),
            q.filter->0.equals@[p as int].0@ == self@.data[x as int].field,
        ensures
            final(cache).wf(),
            agrees(final(cache)@, self.heap()),
            paged(
                r,
                self@.nodes,
                *eval,
                q@,
                of_value(self@, q@, x as int, p as int),
                rank_by(
                    if ordered {
                        Some(self@.data[x as int].field)
                    } else {
                        None
                    },
                    desc,
                ),
                cursor_option(*cursor),
                desc,
                offset as nat,
                limit as nat,
            ),
    {
        let f: &Filter = match q.filter {
            Some(f) => f,
            None => { return Ok(QueryPage { nodes: Vec::new(), next: String::new(), examined: 0 }) },
        };
        let prefix = encode_order_value(Some(&f.equals[p].1));
        let ghost code = prefix@;
        let ghost d = self@.data[x as int];
        let ghost pick = under_prefix(d.kind, d.field, code);
        proof {
            let v = Some(f.equals@[p as int].1@);
            assert(code == order_code(v));
            assert forall|n: NodeView| #[trigger] wanted(*eval, q@)(n) implies has_prefix(
                value_key(field_of(n.data, d.field), n.address),
                code,
            ) && pick(n) by {
                assert(verdict(*eval, *f, n) == Ok::<bool, Seq<char>>(true));
                assert(pins_hold(*f, n));
                assert(has_value(n, f.equals@[p as int].0@, f.equals@[p as int].1@));
                lemma_code_prefix(field_of(n.data, d.field), utf8(n.address), v);
            }
            assert forall|n: NodeView| #[trigger] pick(n) implies field_of(n.data, d.field) is Some && order_code(
                field_of(n.data, d.field),
            ) == code by {
                lemma_code_prefix(field_of(n.data, d.field), utf8(n.address), v);
                lemma_some_code(field_of(n.data, d.field), f.equals@[p as int].1@);
            }
        }
        if ordered {
            return self.query_by_key_prefix(x, prefix, q, cursor, desc, limit, offset, eval, cache);
        }
        let after: Option<Vec<u8>> = match cursor {
            Some(c) => {
                let mut key = copy_bytes(&prefix);
                put_bytes(&mut key, c.a.as_str().as_bytes());
                Some(key)
            },
            None => None,
        };
        let ghost start = cursor_view(after);
        let rows = self.scan_data(x, prefix, after, desc);
        proof {
            let from = start_of(RankBy::Address, cursor_option(*cursor));
            assert forall|n: NodeView, m: NodeView|
                #![trigger rank(RankBy::Address, n), rank(RankBy::Address, m)]
                pick(n) && pick(m) implies past(
                rank(RankBy::Field(d.field), n),
                rank(RankBy::Field(d.field), m),
                desc,
            ) == past(rank(RankBy::Address, n), rank(RankBy::Address, m), desc) by {
                lemma_lt_common_prefix(code, utf8(n.address), utf8(m.address));
                lemma_lt_common_prefix(code, utf8(m.address), utf8(n.address));
            }
            assert forall|n: NodeView| #[trigger] pick(n) implies ((start matches Some(s) ==> past(
                s,
                rank(RankBy::Field(d.field), n),
                desc,
            )) <==> (from matches Some(s) ==> past(s, rank(RankBy::Address, n), desc))) by {
                if let Some(c) = cursor_option(*cursor) {
                    lemma_lt_common_prefix(code, utf8(n.address), utf8(c.a));
                    lemma_lt_common_prefix(code, utf8(c.a), utf8(n.address));
                }
            }
            lemma_reranked(
                rows.all(),
                self@.nodes,
                pick,
                RankBy::Field(d.field),
                RankBy::Address,
                start,
                from,
                desc,
            );
        }
        self.page_from(rows, q, cursor, None, desc, limit, offset, eval, cache, Ghost(pick))
    }

    /// A page from the entries of a data index whose text begins as the
    /// condition says.
    fn query_by_text_prefix<'q, F: Fn(&Filter, &Node) -> Result<bool, String>>(
        &self,
        x: usize,
        p: usize,
        q: &Query<'q>,
        cursor: &Option<Cursor>,
        desc: bool,
        limit: usize,
        offset: usize,
        eval: &F,
        cache: &mut RecordCache,
    ) -> (r: Result<QueryPage, String>)
        requires
            self.inv(),
            x < self@.data.len(),
            q@.kind == Some(self@.data[x as int].kind),
            old(cache).wf(),
            agrees(old(cache)@, self.heap()),
            askable(*eval, q@),
            q.filter is Some,
            p < q.filter->0.prefixes@.len(),
            q.filter->0.prefixes@[p as int].0@ == self@.data[x as int].field,
        ensures
            final(cache).wf(),
            agrees(final(cache)@, self.heap()),
            paged(
                r,
                self@.nodes,
                *eval,
                q@,
                under_prefix(
                    self@.data[x as int].kind,
                    self@.data[x as int].field,
                    text_prefix(q.filter->0.prefixes@[p as int].1@),
                ),
                rank_by(Some(self@.data[x as int].field), desc),
                cursor_option(*cursor),
                desc,
                offset as nat,
                limit as nat,
            ),
    {
        let f: &Filter = match q.filter {
            Some(f) => f,
            None => { return Ok(QueryPage { nodes: Vec::new(), next: String::new(), examined: 0 }) },
        };
        let prefix = encode_string_prefix(&f.prefixes[p].1);
        proof {
            let d = self@.data[x as int];
            let literal = f.prefixes@[p as int].1@;
            assert forall|n: NodeView| #[trigger] wanted(*eval, q@)(n) implies has_prefix(
                value_key(field_of(n.data, d.field), n.address),
                prefix@,
            ) by {
                assert(verdict(*eval, *f, n) == Ok::<bool, Seq<char>>(true));
                assert(pins_hold(*f, n));
                assert(begins(n, f.prefixes@[p as int].0@, f.prefixes@[p as int].1@));
                lemma_text_prefix(field_of(n.data, d.field), utf8(n.address), literal);
            }
            assert forall|n: NodeView| #[trigger] under_prefix(d.kind, d.field, prefix@)(n) implies field_of(
                n.data,
                d.field,
            ) is Some by {
                lemma_text_prefix(field_of(n.data, d.field), utf8(n.address), literal);
            }
        }
        self.query_by_key_prefix(x, prefix, q, cursor, desc, limit, offset, eval, cache)
    }

    /// A page of the nodes that a query asks for: in the order of a field, or
    /// of the addresses (also asked for as `id`); from where a cursor says,
    /// or after the first `offset` rows.
    pub fn query_where<'q, F: Fn(&Filter, &Node) -> Result<bool, String>>(
        &self,
        q: &Query<'q>,
        order: Option<&str>,
        desc: bool,
        after: Option<&str>,
        limit: usize,
        offset: usize,
        max_offset: usize,
        cap: usize,
        eval: &F,
        cache: &mut RecordCache,
    ) -> (r: Result<QueryPage, QueryError>)
        requires
            self.inv(),
            old(cache).wf(),
            agrees(old(cache)@, self.heap()),
            askable(*eval, q@),
        ensures
            final(cache).wf(),
            agrees(final(cache)@, self.heap()),
            answered(
                r,
                self@,
                *eval,
                q@,
                str_view(order),
                desc,
                str_view(after),
                limit as nat,
                offset as nat,
                max_offset as nat,
                cap as nat,
            ),
    {
        let given: Option<&str> = match after {
            Some(s) => {
                proof {
                    assert(s@.len() == 0 <==> s@ =~= ""@) by {
                        reveal_strlit("");
                    }
                }
                if str_eq(s, "") {
                    None
                } else {
                    Some(s)
                }
            },
            None => None,
        };
        if given.is_none() && offset > max_offset {
            return Err(QueryError::Offset { offset, max: max_offset });
        }
        let name: Option<&str> = match order {
            Some(o) => if str_eq(o, "id") {
                None
            } else {
                Some(o)
            },
            None => None,
        };
        let cursor: Option<Cursor> = match given {
            Some(s) => match Cursor::decode(s) {
                Ok(c) => Some(c),
                Err(e) => { return Err(QueryError::Cursor(e)) },
            },
            None => None,
        };
        if let Some((x, p)) = self.equality_prefix_plan(q, name) {
            return judged_page(self.query_by_data_prefix(x, p, name.is_some(), q, &cursor, desc, limit, offset, eval, cache));
        }
        if let Some((x, p)) = self.string_prefix_plan(q, name) {
            return judged_page(self.query_by_text_prefix(x, p, q, &cursor, desc, limit, offset, eval, cache));
        }
        let by: &str = match name {
            Some(by) => by,
            None => {
                if let Some(list) = self.text_candidate_plan(q.kind, q.filter, cap) {
                    proof {
                        let f = q@.filter->0;
                        assert forall|n: NodeView| live(self@.nodes, n) && #[trigger] wanted(*eval, q@)(
                            n,
                        ) implies crate::sort::has_text(list@, n.address) by {
                            assert(verdict(*eval, f, n) == Ok::<bool, Seq<char>>(true));
                            assert(pins_hold(f, n));
                        }
                    }
                    return judged_page(self.query_by_text(list, q, &cursor, desc, limit, offset, eval, cache));
                }
                return judged_page(self.query_by_address(q, &cursor, desc, limit, offset, eval, cache));
            },
        };
        if let Some(kind) = q.kind {
            if let Some(x) = data_find(&self.data, kind, by) {
                proof {
                    lemma_covers(data_defs(self.data@), kind@, by@);
                }
                return judged_page(self.query_by_data_index(x, q, &cursor, desc, limit, offset, eval, cache));
            }
        }
        match self.query_sorted(by, q, &cursor, desc, limit, offset, eval, cap, cache) {
            Ok(page) => Ok(page),
            Err(GatherError::Condition { message }) => Err(QueryError::Condition { message }),
            Err(GatherError::TooMany) => Err(QueryError::ScanLimit { max: cap }),
        }
    }
}

// ---------------------------------------------------------------------
// Laws
// ---------------------------------------------------------------------

/// Going on from where a page ends leaves no row out and gives none twice:
/// the two pages are one page of the listing, and end where it does.
pub proof fn law_pages_follow(
    first: QueryPage,
    second: QueryPage,
    nodes: Nodes,
    want: spec_fn(NodeView) -> bool,
    by: RankBy,
    cursor: Option<CursorView>,
    desc: bool,
    skip: nat,
    a: nat,
    b: nat,
)
    requires
        answers(first, nodes, want, by, cursor, desc, skip, a),
        first.next@.len() > 0,
        cursor_of(first.next@) is Ok,
        answers(second, nodes, want, by, Some(cursor_of(first.next@)->Ok_0), desc, 0, b),
    ensures
        exists|rows: Seq<NodeView>| {
            &&& #[trigger] is_listing(rows, nodes, want, by, start_of(by, cursor), desc)
            &&& nodes_view(first.nodes@) + nodes_view(second.nodes@) == window(rows, skip, a + b)
            &&& second.next@.len() > 0 <==> rows.len() > skip + a + b && b > 0
            &&& rows.len() > skip + a + b && b > 0 ==> points_at(
                second.next@,
                cursor_at(by, nodes_view(second.nodes@).last()),
            )
        },
{
    let from = start_of(by, cursor);
    let rows = choose|rows: Seq<NodeView>|
        #[trigger] is_listing(rows, nodes, want, by, from, desc) && page_of(first, rows, skip, a, by);
    assert(rows.len() > skip + a && a > 0);
    let head = nodes_view(first.nodes@);
    let last = head.last();
    let c = cursor_at(by, last);
    assert(cursor_of(first.next@) == Ok::<CursorView, CursorError>(c));
    let at = skip + a;
    assert(last == rows[at - 1]);
    assert(belongs(nodes, want, by, from, desc, rows[at - 1]));
    let after = rank(by, last);
    assert(start_of(by, Some(c)) == Some(after));
    assert forall|i: int| 0 <= i < at implies !past(after, rank(by, #[trigger] rows[i]), desc) by {
        lemma_lt_total(rank(by, rows[i]), after);
        if i < at - 1 {
            assert(past(rank(by, rows[i]), rank(by, rows[at - 1]), desc));
        }
    }
    assert(past(rank(by, rows[at - 1]), rank(by, rows[at as int]), desc));
    lemma_listing_after(rows, nodes, want, by, from, after, desc, at as int);
    let rest = choose|rest: Seq<NodeView>|
        #[trigger] is_listing(rest, nodes, want, by, Some(after), desc) && page_of(second, rest, 0, b, by);
    law_listing_is_unique(rest, rows.skip(at as int), nodes, want, by, Some(after), desc);
    assert(head + nodes_view(second.nodes@) =~= window(rows, skip, a + b));
}

/// The pages of a walk: each goes on where the one before it ended, and the
/// last says that nothing is left.
pub open spec fn is_page_walk(
    pages: Seq<QueryPage>,
    limits: Seq<nat>,
    nodes: Nodes,
    want: spec_fn(NodeView) -> bool,
    by: RankBy,
    cursor: Option<CursorView>,
    desc: bool,
) -> bool
    decreases pages.len(),
{
    &&& pages.len() == limits.len()
    &&& pages.len() > 0
    &&& limits[0] > 0
    &&& answers(pages[0], nodes, want, by, cursor, desc, 0, limits[0])
    &&& if pages.len() == 1 {
        pages[0].next@.len() == 0
    } else {
        &&& pages[0].next@.len() > 0
        &&& cursor_of(pages[0].next@) is Ok
        &&& is_page_walk(
            pages.skip(1),
            limits.skip(1),
            nodes,
            want,
            by,
            Some(cursor_of(pages[0].next@)->Ok_0),
            desc,
        )
    }
}

/// The rows of pages, one after another.
pub open spec fn rows_of(pages: Seq<QueryPage>) -> Seq<NodeView>
    decreases pages.len(),
{
    if pages.len() == 0 {
        Seq::empty()
    } else {
        nodes_view(pages[0].nodes@) + rows_of(pages.skip(1))
    }
}

/// The rows of such pages are the listing.
pub proof fn lemma_page_walk(
    pages: Seq<QueryPage>,
    limits: Seq<nat>,
    nodes: Nodes,
    want: spec_fn(NodeView) -> bool,
    by: RankBy,
    cursor: Option<CursorView>,
    desc: bool,
)
    requires
        is_page_walk(pages, limits, nodes, want, by, cursor, desc),
    ensures
        is_listing(rows_of(pages), nodes, want, by, start_of(by, cursor), desc),
    decreases pages.len(),
{
    let from = start_of(by, cursor);
    let a = limits[0];
    let first = pages[0];
    let rows = choose|rows: Seq<NodeView>|
        #[trigger] is_listing(rows, nodes, want, by, from, desc) && page_of(first, rows, 0, a, by);
    let head = nodes_view(first.nodes@);
    assert(rows_of(pages) == head + rows_of(pages.skip(1)));
    if pages.len() == 1 {
        assert(rows_of(pages.skip(1)) =~= Seq::<NodeView>::empty());
        assert(rows_of(pages) =~= rows);
    } else {
        let c = cursor_of(first.next@)->Ok_0;
        lemma_page_walk(pages.skip(1), limits.skip(1), nodes, want, by, Some(c), desc);
        assert(rows.len() > a);
        let last = head.last();
        assert(last == rows[a - 1]);
        assert(c == cursor_at(by, last));
        let after = rank(by, last);
        assert(belongs(nodes, want, by, from, desc, rows[a - 1]));
        assert forall|i: int| 0 <= i < a implies !past(after, rank(by, #[trigger] rows[i]), desc) by {
            lemma_lt_total(rank(by, rows[i]), after);
            if i < a - 1 {
                assert(past(rank(by, rows[i]), rank(by, rows[a - 1]), desc));
            }
        }
        assert(past(rank(by, rows[a - 1]), rank(by, rows[a as int]), desc));
        lemma_listing_after(rows, nodes, want, by, from, after, desc, a as int);
        law_listing_is_unique(rows_of(pages.skip(1)), rows.skip(a as int), nodes, want, by, Some(after), desc);
        assert(rows_of(pages) =~= rows);
    }
}

/// The pages that a query gives, asked again from where each ended until
/// nothing is left. Each may be asked with other limits, and with other
/// indexes declared.
pub open spec fn is_query_walk<F: Fn(&Filter, &Node) -> Result<bool, String>>(
    pages: Seq<QueryPage>,
    limits: Seq<nat>,
    dbs: Seq<DbView>,
    nodes: Nodes,
    eval: F,
    q: QueryView,
    order: Option<Seq<char>>,
    desc: bool,
    after: Option<Seq<char>>,
    max_offset: nat,
    cap: nat,
) -> bool
    decreases pages.len(),
{
    &&& pages.len() > 0
    &&& limits.len() == pages.len()
    &&& dbs.len() == pages.len()
    &&& limits[0] > 0
    &&& dbs[0].nodes == nodes
    &&& answered(Ok(pages[0]), dbs[0], eval, q, order, desc, after, limits[0], 0, max_offset, cap)
    &&& if pages.len() == 1 {
        pages[0].next@.len() == 0
    } else {
        &&& pages[0].next@.len() > 0
        &&& is_query_walk(
            pages.skip(1),
            limits.skip(1),
            dbs.skip(1),
            nodes,
            eval,
            q,
            order,
            desc,
            Some(pages[0].next@),
            max_offset,
            cap,
        )
    }
}

proof fn lemma_query_walk<F: Fn(&Filter, &Node) -> Result<bool, String>>(
    pages: Seq<QueryPage>,
    limits: Seq<nat>,
    dbs: Seq<DbView>,
    nodes: Nodes,
    eval: F,
    q: QueryView,
    order: Option<Seq<char>>,
    desc: bool,
    after: Option<Seq<char>>,
    max_offset: nat,
    cap: nat,
)
    requires
        is_query_walk(pages, limits, dbs, nodes, eval, q, order, desc, after, max_offset, cap),
    ensures
        given_cursor(after) is Ok,
        is_page_walk(
            pages,
            limits,
            nodes,
            wanted(eval, q),
            rank_by(order_field(order), desc),
            given_cursor(after)->Ok_0,
            desc,
        ),
    decreases pages.len(),
{
    if pages.len() > 1 {
        lemma_query_walk(
            pages.skip(1),
            limits.skip(1),
            dbs.skip(1),
            nodes,
            eval,
            q,
            order,
            desc,
            Some(pages[0].next@),
            max_offset,
            cap,
        );
    }
}

/// A walk to the end lists every row past its start once, in order, and no
/// other.
pub proof fn law_walk_lists_each_row_once<F: Fn(&Filter, &Node) -> Result<bool, String>>(
    pages: Seq<QueryPage>,
    limits: Seq<nat>,
    dbs: Seq<DbView>,
    nodes: Nodes,
    eval: F,
    q: QueryView,
    order: Option<Seq<char>>,
    desc: bool,
    after: Option<Seq<char>>,
    max_offset: nat,
    cap: nat,
)
    requires
        is_query_walk(pages, limits, dbs, nodes, eval, q, order, desc, after, max_offset, cap),
    ensures
        given_cursor(after) is Ok,
        is_listing(
            rows_of(pages),
            nodes,
            wanted(eval, q),
            rank_by(order_field(order), desc),
            start_of(rank_by(order_field(order), desc), given_cursor(after)->Ok_0),
            desc,
        ),
{
    lemma_query_walk(pages, limits, dbs, nodes, eval, q, order, desc, after, max_offset, cap);
    lemma_page_walk(
        pages,
        limits,
        nodes,
        wanted(eval, q),
        rank_by(order_field(order), desc),
        given_cursor(after)->Ok_0,
        desc,
    );
}

/// Walks of one query list the same rows, whatever their limits, and whatever
/// indexes are declared.
pub proof fn law_walks_agree<F: Fn(&Filter, &Node) -> Result<bool, String>>(
    one: Seq<QueryPage>,
    limits: Seq<nat>,
    dbs: Seq<DbView>,
    other: Seq<QueryPage>,
    limits2: Seq<nat>,
    dbs2: Seq<DbView>,
    nodes: Nodes,
    eval: F,
    q: QueryView,
    order: Option<Seq<char>>,
    desc: bool,
    after: Option<Seq<char>>,
    max_offset: nat,
    cap: nat,
)
    requires
        is_query_walk(one, limits, dbs, nodes, eval, q, order, desc, after, max_offset, cap),
        is_query_walk(other, limits2, dbs2, nodes, eval, q, order, desc, after, max_offset, cap),
    ensures
        rows_of(one) == rows_of(other),
{
    law_walk_lists_each_row_once(one, limits, dbs, nodes, eval, q, order, desc, after, max_offset, cap);
    law_walk_lists_each_row_once(other, limits2, dbs2, nodes, eval, q, order, desc, after, max_offset, cap);
    let by = rank_by(order_field(order), desc);
    law_listing_is_unique(
        rows_of(one),
        rows_of(other),
        nodes,
        wanted(eval, q),
        by,
        start_of(by, given_cursor(after)->Ok_0),
        desc,
    );
}

/// Every node can be judged.
pub open spec fn all_judgeable<F: Fn(&Filter, &Node) -> Result<bool, String>>(
    nodes: Nodes,
    eval: F,
    q: QueryView,
) -> bool {
    forall|n: NodeView| #[trigger] live(nodes, n) ==> accepted(eval, q, n) is Ok
}

/// Indexes do not change a page: with the same nodes, whatever is declared,
/// the same query, from the same cursor, gives the same rows and the same
/// place to go on. Where every node can be judged, and no more rows are
/// sorted in memory than allowed, one is answered where the other is.
pub proof fn law_indexes_keep_the_page<F: Fn(&Filter, &Node) -> Result<bool, String>>(
    one: QueryPage,
    other: Result<QueryPage, QueryError>,
    x: DbView,
    y: DbView,
    eval: F,
    q: QueryView,
    order: Option<Seq<char>>,
    desc: bool,
    after: Option<Seq<char>>,
    limit: nat,
    offset: nat,
    max_offset: nat,
    cap: nat,
)
    requires
        x.nodes == y.nodes,
        answered(Ok(one), x, eval, q, order, desc, after, limit, offset, max_offset, cap),
        answered(other, y, eval, q, order, desc, after, limit, offset, max_offset, cap),
    ensures
        other matches Ok(page) ==> nodes_view(one.nodes@) == nodes_view(page.nodes@) && one.next@ == page.next@,
        all_judgeable(x.nodes, eval, q) && (sorts(x, q, order_field(order)) || !sorts(y, q, order_field(order))
            || !too_many(y.nodes, wanted(eval, q), cap)) ==> other is Ok,
{
    if other is Ok {
        let page = other->Ok_0;
        let want = wanted(eval, q);
        let by = rank_by(order_field(order), desc);
        let cursor = given_cursor(after)->Ok_0;
        let from = start_of(by, cursor);
        let skip = to_skip(cursor, offset);
        let rows = choose|rows: Seq<NodeView>|
            #[trigger] is_listing(rows, x.nodes, want, by, from, desc) && page_of(one, rows, skip, limit, by);
        let rows2 = choose|rows: Seq<NodeView>|
            #[trigger] is_listing(rows, y.nodes, want, by, from, desc) && page_of(page, rows, skip, limit, by);
        law_listing_is_unique(rows, rows2, x.nodes, want, by, from, desc);
        lemma_utf8_injective(one.next@, page.next@);
    }
}

/// A text index changes no page, from the first to the last: with the same
/// nodes and the same indexes over values, where every node can be judged,
/// a query is answered with the one as with the other.
pub proof fn law_text_indexes_keep_every_page<F: Fn(&Filter, &Node) -> Result<bool, String>>(
    one: Result<QueryPage, QueryError>,
    other: Result<QueryPage, QueryError>,
    x: DbView,
    y: DbView,
    eval: F,
    q: QueryView,
    order: Option<Seq<char>>,
    desc: bool,
    after: Option<Seq<char>>,
    limit: nat,
    offset: nat,
    max_offset: nat,
    cap: nat,
)
    requires
        x.nodes == y.nodes,
        x.data == y.data,
        all_judgeable(x.nodes, eval, q),
        answered(one, x, eval, q, order, desc, after, limit, offset, max_offset, cap),
        answered(other, y, eval, q, order, desc, after, limit, offset, max_offset, cap),
    ensures
        one is Ok <==> other is Ok,
        one is Ok ==> nodes_view(one->Ok_0.nodes@) == nodes_view(other->Ok_0.nodes@) && one->Ok_0.next@
            == other->Ok_0.next@,
{
    if one is Ok {
        law_indexes_keep_the_page(
            one->Ok_0,
            other,
            x,
            y,
            eval,
            q,
            order,
            desc,
            after,
            limit,
            offset,
            max_offset,
            cap,
        );
    }
    if other is Ok {
        law_indexes_keep_the_page(
            other->Ok_0,
            one,
            y,
            x,
            eval,
            q,
            order,
            desc,
            after,
            limit,
            offset,
            max_offset,
            cap,
        );
    }
}

/// A query is answered where every node can be judged, the cursor is one, no
/// more rows are skipped than allowed, and no more are wanted than may be
/// sorted in memory.
pub proof fn law_query_is_answered<F: Fn(&Filter, &Node) -> Result<bool, String>>(
    r: Result<QueryPage, QueryError>,
    db: DbView,
    eval: F,
    q: QueryView,
    order: Option<Seq<char>>,
    desc: bool,
    after: Option<Seq<char>>,
    limit: nat,
    offset: nat,
    max_offset: nat,
    cap: nat,
)
    requires
        answered(r, db, eval, q, order, desc, after, limit, offset, max_offset, cap),
        all_judgeable(db.nodes, eval, q),
        given_cursor(after) is Ok,
        !no_cursor(after) || offset <= max_offset,
        !too_many(db.nodes, wanted(eval, q), cap),
    ensures
        r is Ok,
{
}

/// A page says where to go on just where a row follows it.
pub proof fn law_page_goes_on_while_rows_follow<F: Fn(&Filter, &Node) -> Result<bool, String>>(
    page: QueryPage,
    db: DbView,
    eval: F,
    q: QueryView,
    order: Option<Seq<char>>,
    desc: bool,
    after: Option<Seq<char>>,
    limit: nat,
    offset: nat,
    max_offset: nat,
    cap: nat,
    rows: Seq<NodeView>,
)
    requires
        answered(Ok(page), db, eval, q, order, desc, after, limit, offset, max_offset, cap),
        limit > 0,
        is_listing(
            rows,
            db.nodes,
            wanted(eval, q),
            rank_by(order_field(order), desc),
            start_of(rank_by(order_field(order), desc), given_cursor(after)->Ok_0),
            desc,
        ),
    ensures
        page.next@.len() == 0 <==> rows.len() <= to_skip(given_cursor(after)->Ok_0, offset) + limit,
{
    let want = wanted(eval, q);
    let by = rank_by(order_field(order), desc);
    let cursor = given_cursor(after)->Ok_0;
    let from = start_of(by, cursor);
    let skip = to_skip(cursor, offset);
    let mine = choose|rows: Seq<NodeView>|
        #[trigger] is_listing(rows, db.nodes, want, by, from, desc) && page_of(page, rows, skip, limit, by);
    law_listing_is_unique(rows, mine, db.nodes, want, by, from, desc);
}

} // verus!
