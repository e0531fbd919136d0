//! Unique indexes: no two nodes of a kind with one value.

use vstd::prelude::*;

use crate::btree::walker::past;
use crate::bytes::bytes_eq;
use crate::defs::IndexDefView;
use crate::json::{field, field_of};
use crate::order::{encode_order_value, lemma_code_prefix, order_code};
use crate::tables::integrity::{lemma_has_last, lemma_last};
use crate::tables::lists::data_defs;
use crate::tables::model::{applied_all, lemma_nodes_at, DbView};
use crate::tables::rows::{belongs, is_listing, rank, under_prefix, RankBy};
use crate::tables::sorted::lemma_one_value;
use crate::tables::Tables;
use crate::text::{str_eq, text_lt, utf8};
use crate::types::NodeView;
use crate::wal::{operations_view, Operation, OperationView};

verus! {

/// How operations would break a unique index.
#[derive(Debug)]
pub enum UniqueError {
    /// Two of the operations give nodes the same value.
    Batch { index: String, first: String, second: String },
    /// A node that stays has the value.
    Held { index: String, address: String, holder: String },
}

/// The code of a node's value in an index.
pub open spec fn code_in(d: IndexDefView, n: NodeView) -> Seq<u8> {
    order_code(field_of(n.data, d.field))
}

/// An operation inserts or deletes the node at the address.
pub open spec fn touches(op: OperationView, a: Seq<char>) -> bool {
    match op {
        OperationView::Insert(n) => n.address == a,
        OperationView::Delete(b) => b == a,
        _ => false,
    }
}

/// One of the operations inserts or deletes the node at the address.
pub open spec fn touched(ops: Seq<OperationView>, a: Seq<char>) -> bool {
    exists|i: int| 0 <= i < ops.len() && touches(#[trigger] ops[i], a)
}

/// The operation at `i` inserts a node that the unique index at `x` is over.
pub open spec fn claims(db: DbView, ops: Seq<OperationView>, x: int, i: int) -> bool {
    &&& 0 <= x < db.data.len()
    &&& db.data[x].unique
    &&& 0 <= i < ops.len()
    &&& ops[i] is Insert
    &&& ops[i]->Insert_0.kind == db.data[x].kind
}

pub open spec fn claimed_code(db: DbView, ops: Seq<OperationView>, x: int, i: int) -> Seq<u8> {
    code_in(db.data[x], ops[i]->Insert_0)
}

/// The node that the operation at `i` inserts is touched again before the
/// operation at `j`, which frees its values.
pub open spec fn freed(ops: Seq<OperationView>, i: int, j: int) -> bool {
    exists|k: int| i < k < j && k < ops.len() && touches(#[trigger] ops[k], ops[i]->Insert_0.address)
}

/// The operations at `i` and `j` claim the same value of the index at `x`,
/// and that is not freed between them.
pub open spec fn batch_clash(db: DbView, ops: Seq<OperationView>, x: int, i: int, j: int) -> bool {
    &&& i < j
    &&& claims(db, ops, x, i)
    &&& claims(db, ops, x, j)
    &&& !freed(ops, i, j)
    &&& claimed_code(db, ops, x, i) == claimed_code(db, ops, x, j)
}

/// The operation at `j` claims a value of the index at `x` that the node at
/// `a` has, which no operation touches.
pub open spec fn held_clash(db: DbView, ops: Seq<OperationView>, x: int, j: int, a: Seq<char>) -> bool {
    &&& claims(db, ops, x, j)
    &&& db.nodes.contains_key(a)
    &&& db.nodes[a].kind == db.data[x].kind
    &&& code_in(db.data[x], db.nodes[a]) == claimed_code(db, ops, x, j)
    &&& !touched(ops, a)
}

/// The pair of an index and an operation comes before that of the index at
/// `x` and the operation at `j`.
pub open spec fn seen(x: int, j: int, y: int, i: int) -> bool {
    i < j || (i == j && y < x)
}

/// No operation before the one at `j` breaks an index, nor does that one
/// break an index before the one at `x`.
pub open spec fn first_clash(db: DbView, ops: Seq<OperationView>, x: int, j: int) -> bool {
    &&& forall|y: int, i: int, k: int| seen(x, j, y, k) ==> !#[trigger] batch_clash(db, ops, y, i, k)
    &&& forall|y: int, k: int, a: Seq<char>| seen(x, j, y, k) ==> !#[trigger] held_clash(db, ops, y, k, a)
}

/// The report names the index and the two nodes of a clash among operations,
/// which is the first of all clashes.
pub open spec fn batch_report(
    db: DbView,
    ops: Seq<OperationView>,
    x: int,
    i: int,
    j: int,
    e: UniqueError,
) -> bool {
    &&& batch_clash(db, ops, x, i, j)
    &&& first_clash(db, ops, x, j)
    &&& e matches UniqueError::Batch { index, first, second }
    &&& index@ == db.data[x].name
    &&& first@ == ops[i]->Insert_0.address
    &&& second@ == ops[j]->Insert_0.address
}

/// The report names the index and the two nodes of a clash with a node that
/// stays, which is the first of all clashes; of such nodes it names the one
/// whose address comes first.
pub open spec fn held_report(db: DbView, ops: Seq<OperationView>, x: int, j: int, e: UniqueError) -> bool {
    &&& e matches UniqueError::Held { index, address, holder }
    &&& held_clash(db, ops, x, j, holder@)
    &&& first_clash(db, ops, x, j)
    &&& forall|i: int| !#[trigger] batch_clash(db, ops, x, i, j)
    &&& forall|a: Seq<char>| #[trigger] held_clash(db, ops, x, j, a) ==> a == holder@ || text_lt(holder@, a)
    &&& index@ == db.data[x].name
    &&& address@ == ops[j]->Insert_0.address
}

/// The operations break a unique index as the report says.
pub open spec fn breaks(db: DbView, ops: Seq<OperationView>, e: UniqueError) -> bool {
    ||| exists|x: int, i: int, j: int| #[trigger] batch_report(db, ops, x, i, j, e)
    ||| exists|x: int, j: int| #[trigger] held_report(db, ops, x, j, e)
}

/// No operation breaks a unique index.
pub open spec fn unique_ok(db: DbView, ops: Seq<OperationView>) -> bool {
    &&& forall|x: int, i: int, j: int| !#[trigger] batch_clash(db, ops, x, i, j)
    &&& forall|x: int, j: int, a: Seq<char>| !#[trigger] held_clash(db, ops, x, j, a)
}

/// The unique indexes hold.
pub open spec fn unique_db(db: DbView) -> bool {
    forall|x: int, a: Seq<char>, b: Seq<char>| !#[trigger] shared(db, x, a, b)
}

/// Two nodes share a value of the unique index at `x`.
pub open spec fn shared(db: DbView, x: int, a: Seq<char>, b: Seq<char>) -> bool {
    &&& 0 <= x < db.data.len()
    &&& db.data[x].unique
    &&& db.nodes.contains_key(a)
    &&& db.nodes.contains_key(b)
    &&& a != b
    &&& db.nodes[a].kind == db.data[x].kind
    &&& db.nodes[b].kind == db.data[x].kind
    &&& code_in(db.data[x], db.nodes[a]) == code_in(db.data[x], db.nodes[b])
}

/// The operations declare nothing.
pub open spec fn declares_nothing(ops: Seq<OperationView>) -> bool {
    forall|i: int| 0 <= i < ops.len() ==> !declares(#[trigger] ops[i])
}

pub open spec fn declares(op: OperationView) -> bool {
    op is CreateIndex || op is DropIndex || op is CreateTextIndex || op is DropTextIndex || op is CreateReference
        || op is DropReference
}

/// What is at an address after operations that declare nothing: what was
/// there, if none touches it; else what the last one that does makes of it.
pub proof fn lemma_after(db: DbView, ops: Seq<OperationView>, a: Seq<char>)
    requires
        declares_nothing(ops),
    ensures
        applied_all(db, ops).data == db.data,
        applied_all(db, ops).text == db.text,
        applied_all(db, ops).references == db.references,
        !touched(ops, a) ==> (applied_all(db, ops).nodes.contains_key(a) <==> db.nodes.contains_key(a)) && (
        db.nodes.contains_key(a) ==> applied_all(db, ops).nodes[a] == db.nodes[a]),
        touched(ops, a) && applied_all(db, ops).nodes.contains_key(a) ==> exists|i: int| {
            &&& 0 <= i < ops.len()
            &&& #[trigger] ops[i] == OperationView::Insert(applied_all(db, ops).nodes[a])
            &&& applied_all(db, ops).nodes[a].address == a
        },
    decreases ops.len(),
{
    if ops.len() > 0 {
        let init = ops.drop_last();
        let op = ops.last();
        assert(declares_nothing(init)) by {
            assert forall|i: int| 0 <= i < init.len() implies !declares(#[trigger] init[i]) by {
                assert(init[i] == ops[i]);
            }
        }
        assert(!declares(ops[ops.len() - 1]));
        lemma_after(db, init, a);
        let mid = applied_all(db, init);
        let after = applied_all(db, ops);
        if touched(init, a) {
            let i = choose|i: int| 0 <= i < init.len() && touches(#[trigger] init[i], a);
            assert(touches(ops[i], a));
        }
        if touches(op, a) {
            assert(touches(ops[ops.len() - 1], a));
            if after.nodes.contains_key(a) {
                assert(ops[ops.len() - 1] == OperationView::Insert(after.nodes[a]));
            }
        } else {
            assert(after.nodes.contains_key(a) <==> mid.nodes.contains_key(a));
            if after.nodes.contains_key(a) {
                assert(after.nodes[a] == mid.nodes[a]);
            }
            if touched(ops, a) {
                let k = choose|k: int| 0 <= k < ops.len() && touches(#[trigger] ops[k], a);
                assert(touches(init[k], a));
                if after.nodes.contains_key(a) {
                    let i = choose|i: int|
                        0 <= i < init.len() && #[trigger] init[i] == OperationView::Insert(mid.nodes[a])
                            && mid.nodes[a].address == a;
                    assert(ops[i] == OperationView::Insert(after.nodes[a]));
                }
            }
        }
    }
}

/// Operations that pass the check keep unique indexes unique.
pub proof fn law_unique_is_kept(db: DbView, ops: Seq<OperationView>)
    requires
        unique_db(db),
        unique_ok(db, ops),
        declares_nothing(ops),
    ensures
        unique_db(applied_all(db, ops)),
{
    let after = applied_all(db, ops);
    lemma_after(db, ops, Seq::empty());
    assert forall|x: int, a: Seq<char>, b: Seq<char>| !#[trigger] shared(after, x, a, b) by {
        if shared(after, x, a, b) {
            lemma_after(db, ops, a);
            lemma_after(db, ops, b);
            if touched(ops, a) && touched(ops, b) {
                let i = lemma_has_last(ops, a);
                let j = lemma_has_last(ops, b);
                lemma_last(db, ops, i, a);
                lemma_last(db, ops, j, b);
                assert(claims(db, ops, x, i) && claims(db, ops, x, j));
                if i < j {
                    assert(!freed(ops, i, j));
                    assert(batch_clash(db, ops, x, i, j));
                } else {
                    assert(!freed(ops, j, i));
                    assert(batch_clash(db, ops, x, j, i));
                }
            } else if touched(ops, a) {
                let i = lemma_has_last(ops, a);
                lemma_last(db, ops, i, a);
                assert(held_clash(db, ops, x, i, b));
            } else if touched(ops, b) {
                let j = lemma_has_last(ops, b);
                lemma_last(db, ops, j, b);
                assert(held_clash(db, ops, x, j, a));
            } else {
                assert(shared(db, x, a, b));
            }
        }
    }
}

/// Whether one of the operations inserts or deletes the node at the address.
fn is_touched(ops: &Vec<Operation>, address: &str) -> (r: bool)
    ensures
        r == touched(operations_view(ops@), address@),
{
    let ghost view = operations_view(ops@);
    let mut i: usize = 0;
    while i < ops.len()
        invariant
            i <= ops@.len(),
            view == operations_view(ops@),
            forall|j: int| 0 <= j < i ==> !touches(#[trigger] view[j], address@),
        decreases ops.len() - i,
    {
        let hit: bool = match &ops[i] {
            Operation::Insert(node) => str_eq(&node.address, address),
            Operation::Delete(a) => str_eq(a, address),
            _ => false,
        };
        if hit {
            proof {
                assert(touches(view[i as int], address@));
            }
            return true;
        }
        i = i + 1;
    }
    false
}

/// Whether what the operation at `i` inserts at the address is touched again
/// before the one at `j`.
fn is_freed(ops: &Vec<Operation>, i: usize, j: usize, address: &str) -> (r: bool)
    requires
        i < j <= ops@.len(),
        operations_view(ops@)[i as int] is Insert,
        operations_view(ops@)[i as int]->Insert_0.address == address@,
    ensures
        r == freed(operations_view(ops@), i as int, j as int),
{
    let ghost view = operations_view(ops@);
    let mut k: usize = i + 1;
    while k < j
        invariant
            i < k <= j <= ops@.len(),
            view == operations_view(ops@),
            view[i as int]->Insert_0.address == address@,
            forall|m: int| i < m < k ==> !touches(#[trigger] view[m], address@),
        decreases j - k,
    {
        let hit: bool = match &ops[k] {
            Operation::Insert(node) => str_eq(&node.address, address),
            Operation::Delete(a) => str_eq(a, address),
            _ => false,
        };
        if hit {
            proof {
                assert(touches(view[k as int], address@));
            }
            return true;
        }
        k = k + 1;
    }
    false
}

/// A value that an operation claims: the index, the code, the operation.
struct Claim {
    index: usize,
    code: Vec<u8>,
    operation: usize,
}

impl Tables {
    /// The address of a node that has a value of a data index and that no
    /// operation touches.
    fn untouched_holder(&self, x: usize, code: &Vec<u8>, ops: &Vec<Operation>, value: Ghost<Option<crate::json::JsonView>>) -> (r: Option<String>)
        requires
            self.inv(),
            x < self@.data.len(),
            code@ == order_code(value@),
        ensures
            match r {
                Some(a) => {
                    &&& self@.nodes.contains_key(a@)
                    &&& self@.nodes[a@].kind == self@.data[x as int].kind
                    &&& code_in(self@.data[x as int], self@.nodes[a@]) == code@
                    &&& !touched(operations_view(ops@), a@)
                    &&& forall|b: Seq<char>| #[trigger]
                        self@.nodes.contains_key(b) && self@.nodes[b].kind == self@.data[x as int].kind && code_in(
                            self@.data[x as int],
                            self@.nodes[b],
                        ) == code@ && !touched(operations_view(ops@), b) ==> b == a@ || text_lt(a@, b)
                },
                None => forall|a: Seq<char>| #[trigger]
                    self@.nodes.contains_key(a) && self@.nodes[a].kind == self@.data[x as int].kind && code_in(
                        self@.data[x as int],
                        self@.nodes[a],
                    ) == code@ ==> touched(operations_view(ops@), a),
            },
    {
        let ghost nodes = self@.nodes;
        let ghost d = self@.data[x as int];
        let ghost pick = under_prefix(d.kind, d.field, code@);
        let ghost by = RankBy::Field(d.field);
        let mut rows = self.scan_data(x, crate::bytes::copy_bytes(code), None, false);
        let ghost all = rows.all();
        loop
            invariant
                self.inv(),
                nodes == self@.nodes,
                d == self@.data[x as int],
                code@ == order_code(value@),
                pick == under_prefix(d.kind, d.field, code@),
                by == RankBy::Field(d.field),
                rows.wf(self),
                rows.all() == all,
                is_listing(all, nodes, pick, by, None, false),
                forall|i: int|
                    0 <= i < rows.taken() ==> touched(operations_view(ops@), (#[trigger] all[i]).address),
            ensures
                rows.taken() == all.len(),
            decreases all.len() - rows.taken(),
        {
            let ghost at = rows.taken() as int;
            match rows.next_address(self) {
                None => {
                    break;
                },
                Some(address) => {
                    if !is_touched(ops, &address) {
                        proof {
                            let n = all[at];
                            assert(belongs(nodes, pick, by, None, false, n));
                            lemma_code_prefix(field_of(n.data, d.field), utf8(n.address), value@);
                            assert forall|m: NodeView| #[trigger] pick(m) implies order_code(
                                field_of(m.data, d.field),
                            ) == code@ by {
                                lemma_code_prefix(field_of(m.data, d.field), utf8(m.address), value@);
                            }
                            lemma_one_value(all, nodes, pick, d.field, code@, false);
                            assert forall|b: Seq<char>| #[trigger]
                                nodes.contains_key(b) && nodes[b].kind == d.kind && code_in(d, nodes[b]) == code@
                                    && !touched(operations_view(ops@), b) implies b == address@ || text_lt(
                                address@,
                                b,
                            ) by {
                                let m = nodes[b];
                                lemma_nodes_at(self.primary@, nodes, self.store@, b);
                                lemma_code_prefix(field_of(m.data, d.field), utf8(m.address), value@);
                                assert(belongs(nodes, pick, by, None, false, m));
                                let i = choose|i: int| 0 <= i < all.len() && all[i] == m;
                                assert(i >= at) by {
                                    if i < at {
                                        assert(touched(operations_view(ops@), all[i].address));
                                    }
                                }
                                if i > at {
                                    assert(past(
                                        rank(RankBy::Address, all[at]),
                                        rank(RankBy::Address, all[i]),
                                        false,
                                    ));
                                }
                            }
                        }
                        return Some(address);
                    }
                },
            }
        }
        proof {
            assert forall|a: Seq<char>| #[trigger]
                nodes.contains_key(a) && nodes[a].kind == d.kind && code_in(d, nodes[a]) == code@ implies touched(
                operations_view(ops@),
                a,
            ) by {
                let n = nodes[a];
                lemma_nodes_at(self.primary@, nodes, self.store@, a);
                lemma_code_prefix(field_of(n.data, d.field), utf8(n.address), value@);
                assert(belongs(nodes, pick, by, None, false, n));
                assert(all.contains(n));
                let i = choose|i: int| 0 <= i < all.len() && all[i] == n;
                assert(touched(operations_view(ops@), all[i].address));
            }
        }
        None
    }

    /// Whether operations would break a unique index.
    pub(crate) fn check_unique(&self, ops: &Vec<Operation>) -> (r: Result<(), UniqueError>)
        requires
            self.inv(),
        ensures
            match r {
                Ok(()) => unique_ok(self@, operations_view(ops@)),
                Err(e) => breaks(self@, operations_view(ops@), e),
            },
    {
        let ghost db = self@;
        let ghost view = operations_view(ops@);
        let mut claimed: Vec<Claim> = Vec::new();
        let mut j: usize = 0;
        while j < ops.len()
            invariant
                self.inv(),
                db == self@,
                view == operations_view(ops@),
                j <= ops@.len(),
                forall|m: int|
                    0 <= m < claimed@.len() ==> {
                        let c = #[trigger] claimed@[m];
                        claims(db, view, c.index as int, c.operation as int) && c.operation < j && c.code@ == claimed_code(
                            db,
                            view,
                            c.index as int,
                            c.operation as int,
                        )
                    },
                forall|x: int, i: int| #[trigger]
                    claims(db, view, x, i) && i < j ==> exists|m: int| #[trigger] claim_of(claimed@, m, x, i),
                forall|x: int, i: int, k: int| k < j ==> !#[trigger] batch_clash(db, view, x, i, k),
                forall|x: int, k: int, a: Seq<char>| k < j ==> !#[trigger] held_clash(db, view, x, k, a),
            decreases ops.len() - j,
        {
            match &ops[j] {
                Operation::Insert(node) => {
                    let ghost n = node@;
                    proof {
                        assert(view[j as int] == OperationView::Insert(n));
                    }
                    let mut x: usize = 0;
                    while x < self.data.len()
                        invariant
                            self.inv(),
                            db == self@,
                            view == operations_view(ops@),
                            j < ops@.len(),
                            x <= self.data@.len(),
                            n == node@,
                            view[j as int] == OperationView::Insert(n),
                            forall|m: int|
                                0 <= m < claimed@.len() ==> {
                                    let c = #[trigger] claimed@[m];
                                    claims(db, view, c.index as int, c.operation as int) && seen(
                                        x as int,
                                        j as int,
                                        c.index as int,
                                        c.operation as int,
                                    ) && c.code@ == claimed_code(db, view, c.index as int, c.operation as int)
                                },
                            forall|y: int, i: int| #[trigger]
                                claims(db, view, y, i) && seen(x as int, j as int, y, i) ==> exists|m: int| #[trigger]
                                    claim_of(claimed@, m, y, i),
                            forall|y: int, i: int, k: int|
                                seen(x as int, j as int, y, k) ==> !#[trigger] batch_clash(db, view, y, i, k),
                            forall|y: int, k: int, a: Seq<char>|
                                seen(x as int, j as int, y, k) ==> !#[trigger] held_clash(db, view, y, k, a),
                        decreases self.data.len() - x,
                    {
                        let index = &self.data[x];
                        proof {
                            assert(data_defs(self.data@)[x as int] == index.def@);
                        }
                        if index.def.unique && str_eq(&index.def.kind, &node.kind) {
                            proof {
                                assert(claims(db, view, x as int, j as int));
                            }
                            let value = field(&node.data, &index.def.field);
                            let ghost v = field_of(n.data, index.def@.field);
                            let code = encode_order_value(value.as_ref());
                            proof {
                                assert(code@ == claimed_code(db, view, x as int, j as int));
                            }
                            let mut m: usize = 0;
                            while m < claimed.len()
                                invariant
                                    self.inv(),
                                    db == self@,
                                    view == operations_view(ops@),
                                    index == &self.data@[x as int],
                                    x < self.data@.len(),
                                    j < ops@.len(),
                                    n == node@,
                                    view[j as int] == OperationView::Insert(n),
                                    claims(db, view, x as int, j as int),
                                    index.def@ == db.data[x as int],
                                    m <= claimed@.len(),
                                    code@ == claimed_code(db, view, x as int, j as int),
                                    forall|q: int|
                                        0 <= q < claimed@.len() ==> {
                                            let c = #[trigger] claimed@[q];
                                            claims(db, view, c.index as int, c.operation as int) && seen(
                                                x as int,
                                                j as int,
                                                c.index as int,
                                                c.operation as int,
                                            ) && c.code@ == claimed_code(
                                                db,
                                                view,
                                                c.index as int,
                                                c.operation as int,
                                            )
                                        },
                                    forall|q: int|
                                        0 <= q < m ==> !((#[trigger] claimed@[q]).index == x && claimed@[q].code@
                                            == code@ && !freed(view, claimed@[q].operation as int, j as int)),
                                    first_clash(db, view, x as int, j as int),
                                decreases claimed.len() - m,
                            {
                                let claim = &claimed[m];
                                if claim.index == x && bytes_eq(&claim.code, &code) {
                                    proof {
                                        assert(claims(db, view, claim.index as int, claim.operation as int));
                                    }
                                    let first = match &ops[claim.operation] {
                                        Operation::Insert(other) => other.address.clone(),
                                        _ => crate::text::own(""),
                                    };
                                    if !is_freed(ops, claim.operation, j, &first) {
                                        let e = UniqueError::Batch {
                                            index: index.def.name.clone(),
                                            first,
                                            second: node.address.clone(),
                                        };
                                        proof {
                                            let i = claim.operation as int;
                                            assert(batch_clash(db, view, x as int, i, j as int));
                                            assert(batch_report(db, view, x as int, i, j as int, e));
                                        }
                                        return Err(e);
                                    }
                                }
                                m = m + 1;
                            }
                            proof {
                                assert forall|i: int| !#[trigger] batch_clash(db, view, x as int, i, j as int) by {
                                    if batch_clash(db, view, x as int, i, j as int) {
                                        assert(claims(db, view, x as int, i));
                                        let q = choose|q: int| #[trigger] claim_of(claimed@, q, x as int, i);
                                        assert(claimed@[q].index == x && claimed@[q].code@ == code@);
                                    }
                                }
                            }
                            match self.untouched_holder(x, &code, ops, Ghost(v)) {
                                Some(holder) => {
                                    let name = index.def.name.clone();
                                    let address = node.address.clone();
                                    proof {
                                        assert(held_clash(db, view, x as int, j as int, holder@));
                                        assert(name@ == db.data[x as int].name);
                                        assert(address@ == view[j as int]->Insert_0.address);
                                    }
                                    let e = UniqueError::Held { index: name, address, holder };
                                    proof {
                                        assert(held_report(db, view, x as int, j as int, e));
                                    }
                                    return Err(e);
                                },
                                None => {},
                            }
                            let ghost before = claimed@;
                            proof {
                                assert forall|a: Seq<char>| !#[trigger] held_clash(db, view, x as int, j as int, a) by {
                                    if held_clash(db, view, x as int, j as int, a) {
                                        assert(db.nodes.contains_key(a));
                                    }
                                }
                            }
                            claimed.push(Claim { index: x, code, operation: j });
                            proof {
                                assert forall|y: int, i: int| #[trigger]
                                    claims(db, view, y, i) && seen(x + 1, j as int, y, i) implies exists|q: int| #[trigger]
                                    claim_of(claimed@, q, y, i) by {
                                    if seen(x as int, j as int, y, i) {
                                        let q = choose|q: int| #[trigger] claim_of(before, q, y, i);
                                        assert(claim_of(claimed@, q, y, i));
                                    } else {
                                        assert(claim_of(claimed@, before.len() as int, y, i));
                                    }
                                }
                            }
                        } else {
                            proof {
                                assert(!claims(db, view, x as int, j as int));
                            }
                        }
                        x = x + 1;
                    }
                    proof {
                        assert(self.data@.len() == db.data.len());
                        assert forall|y: int, i: int, k: int| k < j + 1 implies !#[trigger] batch_clash(
                            db,
                            view,
                            y,
                            i,
                            k,
                        ) by {
                            if batch_clash(db, view, y, i, k) {
                                assert(seen(x as int, j as int, y, k));
                            }
                        }
                        assert forall|y: int, k: int, a: Seq<char>| k < j + 1 implies !#[trigger] held_clash(
                            db,
                            view,
                            y,
                            k,
                            a,
                        ) by {
                            if held_clash(db, view, y, k, a) {
                                assert(seen(x as int, j as int, y, k));
                            }
                        }
                    }
                },
                _ => {
                    proof {
                        assert(!(view[j as int] is Insert));
                        assert forall|x: int| !#[trigger] claims(db, view, x, j as int) by {}
                    }
                },
            }
            j = j + 1;
        }
        Ok(())
    }
}

spec fn claim_of(claimed: Seq<Claim>, m: int, x: int, i: int) -> bool {
    0 <= m < claimed.len() && claimed[m].index == x && claimed[m].operation == i
}

} // verus!
