//! References: fields that have to name nodes that are there.

use vstd::prelude::*;

use crate::cache::RecordCache;
use crate::defs::{ReferenceDef, ReferenceDefView};
use crate::json::{field, field_of, json_quoted, json_view, quoted, Json, JsonView, Shape, ShapeView};
use crate::keys::{has_bytes, holds_bytes, insert_sorted, strictly_sorted};
use crate::order::{encode_order_value, lemma_code_prefix, order_code};
use crate::tables::lists::{covers, data_find, lemma_covers, reference_defs};
use crate::tables::model::{lemma_nodes_at, DbView};
use crate::tables::rows::{belongs, is_listing, under_prefix, RankBy};
use crate::tables::unique::{touched, touches};
use crate::tables::{agrees, Tables};
use crate::text::{str_eq, utf8};
use crate::textmap::TextMap;
use crate::types::{Node, NodeView};
use crate::wal::{operations_view, Operation, OperationView};

verus! {

/// How operations would break a reference.
#[derive(Debug)]
pub enum ReferenceError {
    /// A node names another that is not there.
    Dangling { reference: String, address: String, value: String },
    /// The index that the reference is resolved through is gone.
    IndexGone { reference: String },
}

/// The value that is not null.
pub open spec fn solid(v: Option<JsonView>) -> Option<JsonView> {
    match v {
        Some(j) => if j.shape is Null {
            None
        } else {
            Some(j)
        },
        None => None,
    }
}

/// What a node names through a reference; nothing where the field is
/// missing or null.
pub open spec fn referencing(n: NodeView, r: ReferenceDefView) -> Option<JsonView> {
    solid(field_of(n.data, r.field))
}

/// What a node is named by through a reference.
pub open spec fn referenced(n: NodeView, r: ReferenceDefView) -> Option<JsonView> {
    match r.parent_field {
        None => Some(JsonView { text: json_quoted(n.address), shape: ShapeView::Text(n.address) }),
        Some(f) => solid(field_of(n.data, f)),
    }
}

pub fn referencing_key(node: &Node, def: &ReferenceDef) -> (r: Option<Json>)
    ensures
        json_view(r) == referencing(node@, def@),
{
    match field(&node.data, &def.field) {
        Some(value) => if value.is_null() {
            None
        } else {
            Some(value)
        },
        None => None,
    }
}

pub fn referenced_key(node: &Node, def: &ReferenceDef) -> (r: Option<Json>)
    ensures
        json_view(r) == referenced(node@, def@),
{
    match &def.parent_field {
        None => Some(quoted(&node.address)),
        Some(f) => match field(&node.data, f) {
            Some(value) => if value.is_null() {
                None
            } else {
                Some(value)
            },
            None => None,
        },
    }
}

/// No operation after the one at `i` touches the address.
pub open spec fn last_touch(ops: Seq<OperationView>, i: int, a: Seq<char>) -> bool {
    &&& 0 <= i < ops.len()
    &&& touches(ops[i], a)
    &&& forall|j: int| i < j < ops.len() ==> !touches(#[trigger] ops[j], a)
}

/// The operation at `i` inserts a node that stays.
pub open spec fn stays(ops: Seq<OperationView>, i: int) -> bool {
    &&& 0 <= i < ops.len()
    &&& ops[i] is Insert
    &&& last_touch(ops, i, ops[i]->Insert_0.address)
}

/// What tells the names of nodes apart: their text, where nodes are named by
/// address, or else the code of their value.
pub open spec fn mark(r: ReferenceDefView, key: JsonView) -> Seq<u8> {
    match r.parent_field {
        None => utf8(key.text),
        Some(_) => order_code(Some(key)),
    }
}

fn mark_of(def: &ReferenceDef, key: &Json) -> (r: Vec<u8>)
    ensures
        r@ == mark(def@, key@),
{
    match &def.parent_field {
        None => crate::bytes::copy_bytes(key.text.as_str().as_bytes()),
        Some(_) => encode_order_value(Some(key)),
    }
}

/// A node that the operations leave behind is named so.
pub open spec fn satisfied(ops: Seq<OperationView>, r: ReferenceDefView, name: Seq<u8>) -> bool {
    exists|i: int| #[trigger] satisfies(ops, i, r, name)
}

pub open spec fn satisfies(ops: Seq<OperationView>, i: int, r: ReferenceDefView, name: Seq<u8>) -> bool {
    &&& stays(ops, i)
    &&& ops[i]->Insert_0.kind == r.parent_kind
    &&& referenced(ops[i]->Insert_0, r) is Some
    &&& mark(r, referenced(ops[i]->Insert_0, r)->0) == name
}

/// A node that is there is named so, by address or by the value of a field,
/// and is not one of those gone.
pub open spec fn resolves(db: DbView, r: ReferenceDefView, key: JsonView, gone: spec_fn(Seq<char>) -> bool) -> bool {
    match r.parent_field {
        None => key.shape matches ShapeView::Text(a) && !gone(a) && db.nodes.contains_key(a) && db.nodes[a].kind
            == r.parent_kind,
        Some(f) => covers(db.data, r.parent_kind, f) is Some && exists|a: Seq<char>|
            !gone(a) && #[trigger] db.nodes.contains_key(a) && db.nodes[a].kind == r.parent_kind && order_code(
                field_of(db.nodes[a].data, f),
            ) == order_code(Some(key)),
    }
}

/// The node that the operation at `i` leaves behind names, through the
/// reference at `r`, one that is not there.
pub open spec fn dangles(db: DbView, ops: Seq<OperationView>, i: int, r: int) -> bool {
    &&& stays(ops, i)
    &&& 0 <= r < db.references.len()
    &&& db.references[r].kind == ops[i]->Insert_0.kind
    &&& referencing(ops[i]->Insert_0, db.references[r]) is Some
    &&& !satisfied(
        ops,
        db.references[r],
        mark(db.references[r], referencing(ops[i]->Insert_0, db.references[r])->0),
    )
    &&& !resolves(
        db,
        db.references[r],
        referencing(ops[i]->Insert_0, db.references[r])->0,
        |a: Seq<char>| touched(ops, a),
    )
}

/// No operation breaks a reference.
pub open spec fn references_ok(db: DbView, ops: Seq<OperationView>) -> bool {
    forall|i: int, r: int| !#[trigger] dangles(db, ops, i, r)
}

/// For each address, the last operation that touches it.
pub open spec fn last_touches(last: Map<Seq<char>, usize>, ops: Seq<OperationView>, n: int) -> bool {
    &&& forall|a: Seq<char>| #[trigger] last.contains_key(a) ==> last_touch(ops.take(n), last[a] as int, a)
    &&& forall|a: Seq<char>, i: int|
        0 <= i < n && #[trigger] touches(ops[i], a) ==> last.contains_key(a)
}

proof fn lemma_last_step(
    before: Map<Seq<char>, usize>,
    after: Map<Seq<char>, usize>,
    ops: Seq<OperationView>,
    n: int,
    a: Option<Seq<char>>,
)
    requires
        0 <= n < ops.len(),
        n <= usize::MAX,
        last_touches(before, ops, n),
        match a {
            Some(x) => (forall|b: Seq<char>| #[trigger] touches(ops[n], b) <==> b == x) && after == before.insert(
                x,
                n as usize,
            ),
            None => (forall|b: Seq<char>| !#[trigger] touches(ops[n], b)) && after == before,
        },
    ensures
        last_touches(after, ops, n + 1),
{
    let now = ops.take(n + 1);
    let old_ops = ops.take(n);
    assert forall|b: Seq<char>| #[trigger] after.contains_key(b) implies last_touch(now, after[b] as int, b) by {
        if a == Some(b) {
            assert(touches(ops[n], b));
            assert(now[n] == ops[n]);
        } else {
            assert(before.contains_key(b));
            assert(last_touch(old_ops, before[b] as int, b));
            assert(!touches(ops[n], b));
            let i = before[b] as int;
            assert(now[i] == old_ops[i]);
            assert forall|j: int| i < j < now.len() implies !touches(#[trigger] now[j], b) by {
                if j < n {
                    assert(now[j] == old_ops[j]);
                } else {
                    assert(now[j] == ops[n]);
                }
            }
        }
    }
    assert forall|b: Seq<char>, i: int| 0 <= i < n + 1 && #[trigger] touches(ops[i], b) implies after.contains_key(b) by {
        if i < n {
            assert(before.contains_key(b));
        }
    }
}

pub(super) fn find_last(ops: &Vec<Operation>) -> (r: TextMap<usize>)
    ensures
        r.wf(),
        last_touches(r@, operations_view(ops@), ops@.len() as int),
{
    let ghost view = operations_view(ops@);
    let mut last: TextMap<usize> = TextMap::new();
    let mut i: usize = 0;
    while i < ops.len()
        invariant
            i <= ops@.len(),
            view == operations_view(ops@),
            last.wf(),
            last_touches(last@, view, i as int),
        decreases ops.len() - i,
    {
        let ghost before = last@;
        match &ops[i] {
            Operation::Insert(node) => {
                last.insert(node.address.clone(), i);
                proof {
                    assert(view[i as int] == OperationView::Insert(node@));
                    lemma_last_step(before, last@, view, i as int, Some(node@.address));
                }
            },
            Operation::Delete(address) => {
                last.insert(address.clone(), i);
                proof {
                    assert(view[i as int] == OperationView::Delete(address@));
                    lemma_last_step(before, last@, view, i as int, Some(address@));
                }
            },
            _ => {
                proof {
                    assert(!(view[i as int] is Insert) && !(view[i as int] is Delete));
                    lemma_last_step(before, last@, view, i as int, None);
                }
            },
        }
        i = i + 1;
    }
    last
}

proof fn lemma_last_is(last: Map<Seq<char>, usize>, ops: Seq<OperationView>, i: int, a: Seq<char>)
    requires
        last_touches(last, ops, ops.len() as int),
    ensures
        last_touch(ops, i, a) <==> last.contains_key(a) && last[a] == i,
{
    assert(ops.take(ops.len() as int) =~= ops);
    if last.contains_key(a) {
        let k = last[a] as int;
        assert(last_touch(ops, k, a));
        if last_touch(ops, i, a) && i != k {
            if i < k {
                assert(!touches(ops[k], a));
            } else {
                assert(!touches(ops[i], a));
            }
        }
    } else if last_touch(ops, i, a) {
        assert(touches(ops[i], a));
    }
}

/// Whether one of the operations inserts or deletes the node at the address.
fn is_touched(ops: &Vec<Operation>, last: &TextMap<usize>, address: &str) -> (r: bool)
    requires
        last.wf(),
        last_touches(last@, operations_view(ops@), ops@.len() as int),
    ensures
        r == touched(operations_view(ops@), address@),
{
    let ghost view = operations_view(ops@);
    let r: bool = last.contains(address);
    proof {
        if r {
            let i = last@[address@] as int;
            assert(view.take(ops@.len() as int) =~= view);
            assert(last_touch(view, i, address@));
            assert(touches(view[i], address@));
        }
        if touched(view, address@) {
            let i = choose|i: int| 0 <= i < view.len() && touches(#[trigger] view[i], address@);
            assert(last@.contains_key(address@));
        }
    }
    r
}

impl Tables {
    /// Whether a node that is there, and that the operations do not touch,
    /// is named so; none if the index to find that out is gone.
    pub(super) fn resolves_committed(
        &self,
        def: &ReferenceDef,
        key: &Json,
        ops: &Vec<Operation>,
        last: &TextMap<usize>,
        cache: &mut RecordCache,
    ) -> (r: Option<bool>)
        requires
            self.inv(),
            old(cache).wf(),
            agrees(old(cache)@, self.heap()),
            last.wf(),
            last_touches(last@, operations_view(ops@), ops@.len() as int),
        ensures
            final(cache).wf(),
            agrees(final(cache)@, self.heap()),
            match r {
                Some(found) => found == resolves(
                    self@,
                    def@,
                    key@,
                    |a: Seq<char>| touched(operations_view(ops@), a),
                ),
                None => def@.parent_field is Some && covers(self@.data, def@.parent_kind, def@.parent_field->0) is None,
            },
    {
        let ghost view = operations_view(ops@);
        let ghost nodes = self@.nodes;
        match &def.parent_field {
            None => {
                match &key.shape {
                    Shape::Text(address) => {
                        if is_touched(ops, last, address) {
                            return Some(false);
                        }
                        match self.read_node(address, cache) {
                            Some(node) => Some(str_eq(&node.kind, &def.parent_kind)),
                            None => Some(false),
                        }
                    },
                    _ => Some(false),
                }
            },
            Some(f) => {
                let x: usize = match data_find(&self.data, &def.parent_kind, f) {
                    Some(x) => x,
                    None => { return None },
                };
                let ghost d = self@.data[x as int];
                let code = encode_order_value(Some(key));
                let ghost pick = under_prefix(d.kind, d.field, code@);
                let ghost by = RankBy::Field(d.field);
                proof {
                    lemma_covers(self@.data, def@.parent_kind, f@);
                }
                let mut rows = self.scan_data(x, crate::bytes::copy_bytes(&code), None, false);
                let ghost all = rows.all();
                loop
                    invariant
                        self.inv(),
                        nodes == self@.nodes,
                        view == operations_view(ops@),
                        cache.wf(),
                        agrees(cache@, self.heap()),
                        last.wf(),
                        last_touches(last@, view, ops@.len() as int),
                        d == self@.data[x as int],
                        d.kind == def@.parent_kind,
                        d.field == f@,
                        def@.parent_field == Some(f@),
                        covers(self@.data, def@.parent_kind, f@) is Some,
                        code@ == order_code(Some(key@)),
                        pick == under_prefix(d.kind, d.field, code@),
                        rows.wf(self),
                        rows.all() == all,
                        is_listing(all, nodes, pick, by, None, false),
                        forall|i: int| 0 <= i < rows.taken() ==> touched(view, (#[trigger] all[i]).address),
                    ensures
                        rows.taken() == all.len(),
                    decreases all.len() - rows.taken(),
                {
                    let ghost at = rows.taken() as int;
                    match rows.next_address(self) {
                        None => {
                            break;
                        },
                        Some(address) => {
                            if !is_touched(ops, last, &address) {
                                proof {
                                    let n = all[at];
                                    assert(belongs(nodes, pick, by, None, false, n));
                                    lemma_code_prefix(field_of(n.data, d.field), utf8(n.address), Some(key@));
                                    assert(nodes.contains_key(n.address));
                                }
                                return Some(true);
                            }
                        },
                    }
                }
                proof {
                    assert forall|a: Seq<char>| !touched(view, a) && #[trigger]
                        nodes.contains_key(a) && nodes[a].kind == d.kind implies order_code(field_of(nodes[a].data, f@))
                        != order_code(Some(key@)) by {
                        let n = nodes[a];
                        lemma_nodes_at(self.primary@, nodes, self.store@, a);
                        lemma_code_prefix(field_of(n.data, d.field), utf8(n.address), Some(key@));
                        if order_code(field_of(n.data, f@)) == order_code(Some(key@)) {
                            assert(belongs(nodes, pick, by, None, false, n));
                            assert(all.contains(n));
                            let i = choose|i: int| 0 <= i < all.len() && all[i] == n;
                            assert(touched(view, all[i].address));
                        }
                    }
                }
                Some(false)
            },
        }
    }
}

/// What the names of nodes that the operations leave behind are told apart
/// by.
fn satisfied_marks(ops: &Vec<Operation>, last: &TextMap<usize>, def: &ReferenceDef) -> (r: Vec<Vec<u8>>)
    requires
        last.wf(),
        last_touches(last@, operations_view(ops@), ops@.len() as int),
    ensures
        strictly_sorted(r@),
        forall|t: Seq<u8>| #[trigger] holds_bytes(r@, t) <==> satisfied(operations_view(ops@), def@, t),
{
    let ghost view = operations_view(ops@);
    let mut out: Vec<Vec<u8>> = Vec::new();
    let mut i: usize = 0;
    while i < ops.len()
        invariant
            i <= ops@.len(),
            view == operations_view(ops@),
            last.wf(),
            last_touches(last@, view, ops@.len() as int),
            strictly_sorted(out@),
            forall|t: Seq<u8>| #[trigger]
                holds_bytes(out@, t) <==> exists|k: int| k < i && #[trigger] satisfies(view, k, def@, t),
        decreases ops.len() - i,
    {
        let ghost before = out@;
        let ghost mut added: Option<Seq<u8>> = None;
        match &ops[i] {
            Operation::Insert(node) => {
                proof {
                    assert(view[i as int] == OperationView::Insert(node@));
                    lemma_last_is(last@, view, i as int, node@.address);
                }
                let final_one: bool = match last.get(&node.address) {
                    Some(k) => *k == i,
                    None => false,
                };
                if final_one && str_eq(&node.kind, &def.parent_kind) {
                    match referenced_key(node, def) {
                        Some(key) => {
                            proof {
                                added = Some(mark(def@, key@));
                                assert(satisfies(view, i as int, def@, mark(def@, key@)));
                            }
                            insert_sorted(&mut out, mark_of(def, &key));
                        },
                        None => {},
                    }
                }
            },
            _ => {
                proof {
                    assert(!(view[i as int] is Insert));
                }
            },
        }
        proof {
            assert forall|t: Seq<u8>| #[trigger] holds_bytes(out@, t) <==> exists|k: int|
                k < i + 1 && #[trigger] satisfies(view, k, def@, t) by {
                if holds_bytes(before, t) {
                    let k = choose|k: int| k < i && #[trigger] satisfies(view, k, def@, t);
                    assert(k < i + 1 && satisfies(view, k, def@, t));
                }
                if exists|k: int| k < i + 1 && #[trigger] satisfies(view, k, def@, t) {
                    let k = choose|k: int| k < i + 1 && #[trigger] satisfies(view, k, def@, t);
                    if k < i {
                        assert(holds_bytes(before, t));
                    } else {
                        assert(added == Some(t));
                    }
                }
            }
        }
        i = i + 1;
    }
    proof {
        assert forall|t: Seq<u8>| #[trigger] holds_bytes(out@, t) <==> satisfied(view, def@, t) by {
            if satisfied(view, def@, t) {
                let k = choose|k: int| #[trigger] satisfies(view, k, def@, t);
                assert(k < i);
            }
        }
    }
    out
}

impl Tables {
    /// Whether operations would break a reference.
    pub(crate) fn check_references(&self, ops: &Vec<Operation>, cache: &mut RecordCache) -> (r: Result<
        (),
        ReferenceError,
    >)
        requires
            self.inv(),
            old(cache).wf(),
            agrees(old(cache)@, self.heap()),
        ensures
            final(cache).wf(),
            agrees(final(cache)@, self.heap()),
            match r {
                Ok(()) => references_ok(self@, operations_view(ops@)),
                Err(e) => exists|i: int, k: int| #[trigger] dangle_report(self@, operations_view(ops@), i, k, e),
            },
    {
        let ghost db = self@;
        let ghost view = operations_view(ops@);
        if self.references.len() == 0 {
            proof {
                assert(db.references.len() == 0);
            }
            return Ok(());
        }
        let last = find_last(ops);
        let mut r: usize = 0;
        while r < self.references.len()
            invariant
                self.inv(),
                db == self@,
                view == operations_view(ops@),
                cache.wf(),
                agrees(cache@, self.heap()),
                last.wf(),
                last_touches(last@, view, ops@.len() as int),
                r <= self.references@.len(),
                forall|i: int, k: int| k < r ==> !#[trigger] dangles(db, view, i, k),
            decreases self.references.len() - r,
        {
            let def = &self.references[r];
            proof {
                assert(reference_defs(self.references@)[r as int] == def@);
            }
            let named = satisfied_marks(ops, &last, def);
            let mut i: usize = 0;
            while i < ops.len()
                invariant
                    self.inv(),
                    db == self@,
                    view == operations_view(ops@),
                    cache.wf(),
                    agrees(cache@, self.heap()),
                    last.wf(),
                    last_touches(last@, view, ops@.len() as int),
                    r < self.references@.len(),
                    r < db.references.len(),
                    db.references[r as int] == def@,
                    forall|t: Seq<u8>| #[trigger] holds_bytes(named@, t) <==> satisfied(view, def@, t),
                    i <= ops@.len(),
                    forall|k: int| k < i ==> !#[trigger] dangles(db, view, k, r as int),
                decreases ops.len() - i,
            {
                match &ops[i] {
                    Operation::Insert(node) => {
                        proof {
                            assert(view[i as int] == OperationView::Insert(node@));
                            lemma_last_is(last@, view, i as int, node@.address);
                        }
                        let final_one: bool = match last.get(&node.address) {
                            Some(k) => *k == i,
                            None => false,
                        };
                        if final_one && str_eq(&node.kind, &def.kind) {
                            match referencing_key(node, def) {
                                Some(key) => {
                                    if !has_bytes(&named, &mark_of(def, &key)) {
                                        match self.resolves_committed(def, &key, ops, &last, cache) {
                                            Some(true) => {},
                                            Some(false) => {
                                                let e = ReferenceError::Dangling {
                                                    reference: def.name.clone(),
                                                    address: node.address.clone(),
                                                    value: key.text,
                                                };
                                                proof {
                                                    assert(dangles(db, view, i as int, r as int));
                                                    assert(dangle_report(db, view, i as int, r as int, e));
                                                }
                                                return Err(e);
                                            },
                                            None => {
                                                let e = ReferenceError::IndexGone { reference: def.name.clone() };
                                                proof {
                                                    assert(dangles(db, view, i as int, r as int));
                                                    assert(dangle_report(db, view, i as int, r as int, e));
                                                }
                                                return Err(e);
                                            },
                                        }
                                    }
                                },
                                None => {},
                            }
                        }
                    },
                    _ => {
                        proof {
                            assert(!(view[i as int] is Insert));
                        }
                    },
                }
                i = i + 1;
            }
            proof {
                assert forall|k: int| !#[trigger] dangles(db, view, k, r as int) by {
                    if k >= ops@.len() {
                        assert(!stays(view, k));
                    }
                }
            }
            r = r + 1;
        }
        proof {
            assert(self.references@.len() == db.references.len());
        }
        Ok(())
    }
}

/// The report names the reference and what is wrong with it.
pub open spec fn dangle_report(db: DbView, ops: Seq<OperationView>, i: int, r: int, e: ReferenceError) -> bool {
    &&& dangles(db, ops, i, r)
    &&& match e {
        ReferenceError::Dangling { reference, address, value } => {
            &&& reference@ == db.references[r].name
            &&& address@ == ops[i]->Insert_0.address
            &&& value@ == referencing(ops[i]->Insert_0, db.references[r])->0.text
        },
        ReferenceError::IndexGone { reference } => {
            &&& reference@ == db.references[r].name
            &&& db.references[r].parent_field matches Some(f)
            &&& covers(db.data, db.references[r].parent_kind, f) is None
        },
    }
}

} // verus!
