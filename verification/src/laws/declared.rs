//! What declared indexes and references promise, and sequences.

use vstd::prelude::*;

use crate::defs::{IndexDefView, ReferenceDefView};
use crate::engine::batch::changes;
use crate::engine::declare::{covered_rows, creates_index, creates_reference, drops_index};
use crate::engine::sequence::{lemma_inserted, says_next, sequence_address, sequence_node, takes, SequenceError};
use crate::engine::write::{inserts, insertion, next_version};
use crate::engine::StorageEngine;
use crate::json::{field_of, JsonView, ShapeView};
use crate::order::{order_code, TAG_NOTHING};
use crate::tables::backfill::{dependents, leans_on, names_live, repeats, takes_row};
use crate::tables::declared::{named_data, named_reference};
use crate::tables::integrity::{lemma_has_last, lemma_last};
use crate::tables::memory::lemma_listing_exists;
use crate::tables::model::{applied_all, data_names, name_slot, reference_names, DbView};
use crate::tables::lists::covers;
use crate::tables::refs::{dangle_report, dangles, referencing, resolves, ReferenceError};
use crate::tables::rows::{belongs, is_listing, scanned, RankBy};
use crate::tables::unique::{
    batch_clash, batch_report, breaks, claims, declares, declares_nothing, freed, held_clash, held_report, lemma_after,
    touched, touches, UniqueError,
};
use crate::text::utf8;
use crate::transaction::{Invalidity, TransactionError};
use crate::types::{NodeView, Visibility};
use crate::wal::OperationView;

verus! {

// ---------------------------------------------------------------------
// Unique indexes
// ---------------------------------------------------------------------

/// Where a change is carried out, no node that it wrote shares the value of a
/// unique index with another of the kind.
pub proof fn law_written_values_are_unique(
    before: StorageEngine,
    after: StorageEngine,
    ops: Seq<OperationView>,
    alone: bool,
    x: int,
    a: Seq<char>,
    b: Seq<char>,
)
    requires
        changes(Ok(()), before, after, ops, alone),
        0 <= x < before@.data.len(),
        before@.data[x].unique,
        a != b,
        after@.nodes.contains_key(a),
        after@.nodes.contains_key(b),
        !(before@.nodes.contains_key(a) && before@.nodes[a] == after@.nodes[a]),
        after@.nodes[a].kind == before@.data[x].kind,
        after@.nodes[b].kind == before@.data[x].kind,
    ensures
        order_code(field_of(after@.nodes[a].data, before@.data[x].field)) != order_code(
            field_of(after@.nodes[b].data, before@.data[x].field),
        ),
{
    let db = before@;
    if ops.len() == 1 && declares(ops[0]) {
        assert(ops.drop_last() =~= Seq::<OperationView>::empty());
        reveal_with_fuel(applied_all, 2);
        assert(after@.nodes == db.nodes);
        assert(false);
    }
    assert(declares_nothing(ops));
    lemma_after(db, ops, a);
    lemma_after(db, ops, b);
    assert(touched(ops, a));
    let i = lemma_has_last(ops, a);
    lemma_last(db, ops, i, a);
    assert(touches(ops[i], a));
    assert(claims(db, ops, x, i));
    if order_code(field_of(after@.nodes[a].data, db.data[x].field)) == order_code(
        field_of(after@.nodes[b].data, db.data[x].field),
    ) {
        if touched(ops, b) {
            let j = lemma_has_last(ops, b);
            lemma_last(db, ops, j, b);
            assert(touches(ops[j], b));
            assert(claims(db, ops, x, j));
            if i < j {
                assert(!freed(ops, i, j));
                assert(batch_clash(db, ops, x, i, j));
            } else {
                assert(!freed(ops, j, i));
                assert(batch_clash(db, ops, x, j, i));
            }
        } else {
            assert(held_clash(db, ops, x, i, b));
        }
    }
}

/// A unique index that is declared anew finds no two nodes of its kind that
/// share a value; and it is declared then, beside all that was.
pub proof fn law_new_unique_index_finds_no_two(
    before: StorageEngine,
    after: StorageEngine,
    d: IndexDefView,
    a: Seq<char>,
    b: Seq<char>,
)
    requires
        before.inv(),
        creates_index(Ok(()), before, after, d),
        forall|i: int| 0 <= i < before@.data.len() ==> (#[trigger] before@.data[i]).name != d.name,
    ensures
        after@.data.contains(d),
        forall|i: int| 0 <= i < before@.data.len() ==> after@.data.contains(#[trigger] before@.data[i]),
        after@.data.len() == before@.data.len() + 1,
        d.unique && a != b && after@.nodes.contains_key(a) && after@.nodes.contains_key(b) && after@.nodes[a].kind
            == d.kind && after@.nodes[b].kind == d.kind ==> order_code(field_of(after@.nodes[a].data, d.field))
            != order_code(field_of(after@.nodes[b].data, d.field)),
{
    let db = before@;
    let op = OperationView::CreateIndex(d);
    let names = data_names(db.data);
    let at = name_slot(names, d.name);
    crate::tables::replay::lemma_slot_within(names, d.name);
    assert(named_data(db, d.name) is None);
    assert(seq![op].drop_last() =~= Seq::<OperationView>::empty());
    reveal_with_fuel(applied_all, 2);
    assert(!(0 <= at < names.len() && names[at] == d.name)) by {
        if 0 <= at < names.len() {
            assert(db.data[at].name != d.name);
        }
    }
    assert(after@.data == db.data.insert(at, d));
    assert(after@.data[at] == d);
    assert forall|i: int| 0 <= i < db.data.len() implies after@.data.contains(#[trigger] db.data[i]) by {
        if i < at {
            assert(after@.data[i] == db.data[i]);
        } else {
            assert(after@.data[i + 1] == db.data[i]);
        }
    }
    if d.unique && a != b && after@.nodes.contains_key(a) && after@.nodes.contains_key(b) && after@.nodes[a].kind
        == d.kind && after@.nodes[b].kind == d.kind {
        before.lemma_orderly();
        let pick = scanned(Some(d.kind), None);
        let found = lemma_listing_exists(db.nodes, pick);
        let rows = covered_rows(db, d.kind);
        assert(is_listing(rows, db.nodes, pick, RankBy::Address, None, false));
        let (m, n) = (db.nodes[a], db.nodes[b]);
        assert(belongs(db.nodes, pick, RankBy::Address, None, false, m));
        assert(belongs(db.nodes, pick, RankBy::Address, None, false, n));
        let i = choose|i: int| 0 <= i < rows.len() && rows[i] == m;
        let j = choose|j: int| 0 <= j < rows.len() && rows[j] == n;
        assert(takes_row(d, rows, i));
        assert(takes_row(d, rows, j));
        assert(i != j);
        assert(!repeats(d, rows, i, j));
        assert(!repeats(d, rows, j, i));
    }
}

/// A reference that is declared anew finds every node of its kind whose field
/// is there and not null naming a node of the parent kind, by its address or
/// by the value of its field; and it is declared then, beside all that were.
pub proof fn law_new_reference_finds_all_names(
    before: StorageEngine,
    after: StorageEngine,
    d: ReferenceDefView,
    a: Seq<char>,
    v: JsonView,
)
    requires
        before.inv(),
        creates_reference(Ok(()), before, after, d),
        forall|i: int| 0 <= i < before@.references.len() ==> (#[trigger] before@.references[i]).name != d.name,
    ensures
        after@.nodes == before@.nodes,
        after@.references.contains(d),
        forall|i: int| 0 <= i < before@.references.len() ==> after@.references.contains(#[trigger] before@.references[i]),
        before@.nodes.contains_key(a) && before@.nodes[a].kind == d.kind && field_of(before@.nodes[a].data, d.field)
            == Some(v) && !(v.shape is Null) ==> exists|b: Seq<char>| {
            &&& #[trigger] before@.nodes.contains_key(b)
            &&& before@.nodes[b].kind == d.parent_kind
            &&& match d.parent_field {
                None => v.shape == ShapeView::Text(b),
                Some(f) => field_of(before@.nodes[b].data, f) matches Some(w) && order_code(Some(w)) == order_code(
                    Some(v),
                ),
            }
        },
{
    let db = before@;
    let op = OperationView::CreateReference(d);
    let names = reference_names(db.references);
    let at = name_slot(names, d.name);
    crate::tables::replay::lemma_slot_within(names, d.name);
    assert(named_reference(db, d.name) is None);
    assert(seq![op].drop_last() =~= Seq::<OperationView>::empty());
    reveal_with_fuel(applied_all, 2);
    assert(!(0 <= at < names.len() && names[at] == d.name)) by {
        if 0 <= at < names.len() {
            assert(db.references[at].name != d.name);
        }
    }
    assert(after@.references == db.references.insert(at, d));
    assert(after@.references[at] == d);
    assert forall|i: int| 0 <= i < db.references.len() implies after@.references.contains(
        #[trigger] db.references[i],
    ) by {
        if i < at {
            assert(after@.references[i] == db.references[i]);
        } else {
            assert(after@.references[i + 1] == db.references[i]);
        }
    }
    if db.nodes.contains_key(a) && db.nodes[a].kind == d.kind && field_of(db.nodes[a].data, d.field) == Some(v) && !(
    v.shape is Null) {
        before.lemma_orderly();
        let pick = scanned(Some(d.kind), None);
        let found = lemma_listing_exists(db.nodes, pick);
        let rows = covered_rows(db, d.kind);
        assert(is_listing(rows, db.nodes, pick, RankBy::Address, None, false));
        let m = db.nodes[a];
        assert(belongs(db.nodes, pick, RankBy::Address, None, false, m));
        let i = choose|i: int| 0 <= i < rows.len() && rows[i] == m;
        assert(names_live(db, d, rows[i]));
        assert(referencing(m, d) == Some(v));
        match d.parent_field {
            None => {
                let b = v.shape->Text_0;
                assert(db.nodes.contains_key(b));
            },
            Some(f) => {
                let b = choose|b: Seq<char>| #[trigger]
                    db.nodes.contains_key(b) && db.nodes[b].kind == d.parent_kind && order_code(
                        field_of(db.nodes[b].data, f),
                    ) == order_code(Some(v));
                assert(order_code(None)[0] == TAG_NOTHING);
                assert(order_code(Some(v))[0] != TAG_NOTHING);
                assert(field_of(db.nodes[b].data, f) is Some);
            },
        }
    }
}

/// Putting a node in place is refused for a unique index only where another
/// node of the kind has the same value of its field.
pub proof fn law_unique_refuses_only_what_is_shared(
    before: StorageEngine,
    after: StorageEngine,
    node: NodeView,
    u: UniqueError,
)
    requires
        !before.failed(),
        inserts(Err(TransactionError::Invalid(Invalidity::Unique(u))), before, after, node),
    ensures
        exists|x: int, b: Seq<char>| {
            &&& 0 <= x < before@.data.len()
            &&& (#[trigger] before@.data[x]).unique
            &&& before@.data[x].kind == node.kind
            &&& #[trigger] before@.nodes.contains_key(b)
            &&& b != node.address
            &&& before@.nodes[b].kind == node.kind
            &&& order_code(field_of(before@.nodes[b].data, before@.data[x].field)) == order_code(
                field_of(node.data, before@.data[x].field),
            )
        },
{
    let db = before@;
    let ops = insertion(db, node, next_version(before));
    assert(breaks(db, ops, u));
    if exists|x: int, i: int, j: int| #[trigger] batch_report(db, ops, x, i, j, u) {
        let (x, i, j) = choose|x: int, i: int, j: int| #[trigger] batch_report(db, ops, x, i, j, u);
        assert(ops[i] is Insert && ops[j] is Insert);
        assert(false);
    }
    let (x, j) = choose|x: int, j: int| #[trigger] held_report(db, ops, x, j, u);
    let b = u->Held_holder@;
    assert(ops[j] == OperationView::Insert(node));
    assert(touches(ops[j], node.address));
    assert(held_clash(db, ops, x, j, b));
    assert(db.data[x].unique && db.nodes.contains_key(b));
}

/// Putting a node in place is refused for a dangling reference only where the
/// field is there, is not null, and no other node of the parent kind has that
/// address, or that value of its field.
pub proof fn law_reference_refuses_only_what_dangles(
    before: StorageEngine,
    after: StorageEngine,
    node: NodeView,
    reference: String,
    address: String,
    value: String,
)
    requires
        !before.failed(),
        inserts(
            Err(
                TransactionError::Invalid(
                    Invalidity::Reference(ReferenceError::Dangling { reference, address, value }),
                ),
            ),
            before,
            after,
            node,
        ),
    ensures
        address@ == node.address,
        exists|k: int| {
            &&& 0 <= k < before@.references.len()
            &&& (#[trigger] before@.references[k]).name == reference@
            &&& before@.references[k].kind == node.kind
            &&& names_nothing(before@, before@.references[k], node)
        },
{
    let db = before@;
    let ops = insertion(db, node, next_version(before));
    let e = ReferenceError::Dangling { reference, address, value };
    let (i, k) = choose|i: int, k: int| #[trigger] dangle_report(db, ops, i, k, e);
    assert(dangles(db, ops, i, k));
    assert(ops[i] == OperationView::Insert(node));
    let r = db.references[k];
    let v = referencing(node, r)->0;
    let gone = |a: Seq<char>| touched(ops, a);
    assert(!resolves(db, r, v, gone));
    assert forall|b: Seq<char>| #[trigger] db.nodes.contains_key(b) && b != node.address && db.nodes[b].kind
        == r.parent_kind implies match r.parent_field {
        None => v.shape != ShapeView::Text(b),
        Some(f) => covers(db.data, r.parent_kind, f) is None || order_code(field_of(db.nodes[b].data, f)) != order_code(
            Some(v),
        ),
    } by {
        assert(!touched(ops, b)) by {
            if touched(ops, b) {
                let j = choose|j: int| 0 <= j < ops.len() && touches(#[trigger] ops[j], b);
                assert(ops[j] == OperationView::Insert(node));
            }
        }
        assert(!gone(b));
    }
    assert(names_nothing(db, r, node));
}

/// The node's field is there and not null, and no other node of the parent
/// kind is named so.
pub open spec fn names_nothing(db: DbView, r: ReferenceDefView, n: NodeView) -> bool {
    exists|v: JsonView| {
        &&& #[trigger] field_of(n.data, r.field) == Some(v)
        &&& !(v.shape is Null)
        &&& forall|b: Seq<char>| #[trigger]
            db.nodes.contains_key(b) && b != n.address && db.nodes[b].kind == r.parent_kind ==> match r.parent_field {
                None => v.shape != ShapeView::Text(b),
                Some(f) => covers(db.data, r.parent_kind, f) is None || order_code(field_of(db.nodes[b].data, f))
                    != order_code(Some(v)),
            }
    }
}

/// Dropping an index drops the one of that name and no other, and no
/// reference needs it: none is from its field, or to it.
pub proof fn law_drop_takes_one_index(before: StorageEngine, after: StorageEngine, name: Seq<char>, d: IndexDefView)
    requires
        before.inv(),
        drops_index(Ok(()), before, after, name),
    ensures
        after@.data.contains(d) ==> before@.data.contains(d),
        before@.data.contains(d) && d.name != name ==> after@.data.contains(d),
        after@.references == before@.references,
        before@.data.contains(d) && !after@.data.contains(d) ==> forall|k: int|
            0 <= k < before@.references.len() ==> {
                let r = #[trigger] before@.references[k];
                &&& !(r.kind == d.kind && r.field == d.field)
                &&& !(r.parent_field == Some(d.field) && r.parent_kind == d.kind)
            },
{
    let db = before@;
    let at = name_slot(data_names(db.data), name);
    reveal_with_fuel(applied_all, 2);
    match named_data(db, name) {
        Some(held) => {
            let op = OperationView::DropIndex(name);
            assert(seq![op].drop_last() =~= Seq::<OperationView>::empty());
            assert(after@.data == db.data.remove(at));
            if after@.data.contains(d) {
                let i = choose|i: int| 0 <= i < after@.data.len() && after@.data[i] == d;
                assert(db.data[if i < at {
                    i
                } else {
                    i + 1
                }] == d);
            }
            if db.data.contains(d) {
                let i = choose|i: int| 0 <= i < db.data.len() && db.data[i] == d;
                if i < at {
                    assert(after@.data[i] == d);
                } else if i > at {
                    assert(after@.data[i - 1] == d);
                } else {
                    assert(d == held);
                    let leaning = dependents(db.references, d.kind, d.field);
                    assert(leaning.len() == 0);
                    assert forall|k: int| 0 <= k < db.references.len() implies {
                        let r = #[trigger] db.references[k];
                        &&& !(r.kind == d.kind && r.field == d.field)
                        &&& !(r.parent_field == Some(d.field) && r.parent_kind == d.kind)
                    } by {
                        let p = |r: ReferenceDefView| leans_on(r, d.kind, d.field);
                        if p(db.references[k]) {
                            crate::seqs::lemma_filter_keeps(db.references, p, k);
                        }
                    }
                }
            }
        },
        None => {
            let op = OperationView::DropTextIndex(name);
            assert(seq![op].drop_last() =~= Seq::<OperationView>::empty());
            assert(after@.data == db.data);
        },
    }
}

// ---------------------------------------------------------------------
// Sequences
// ---------------------------------------------------------------------

/// Where numbers are handed out they begin at 1 where the sequence is new,
/// are at least one and no more than a hundred thousand, and none is past the
/// largest. A sequence that is there is the requester's, or an administrator
/// asks; it keeps its owner. Nothing at another address changes, nor what any
/// other sequence hands out.
pub proof fn law_sequence_hands_out(
    before: StorageEngine,
    after: StorageEngine,
    name: Seq<char>,
    first: u64,
    count: u64,
    owner: Seq<char>,
    is_admin: bool,
    other: Seq<char>,
)
    requires
        takes(Ok(first), before, after, name, count, owner, is_admin),
    ensures
        ({
            let a = "__sequence"@ + ":"@ + name;
            &&& 1 <= count <= 100_000
            &&& first + count <= u64::MAX
            &&& !before@.nodes.contains_key(a) ==> first == 1
            &&& before@.nodes.contains_key(a) ==> is_admin || before@.nodes[a].owner == owner
            &&& after@.nodes.contains_key(a)
            &&& after@.nodes[a].kind == "__sequence"@
            &&& after@.nodes[a].visibility == Visibility::Private
            &&& after@.nodes[a].owner == if before@.nodes.contains_key(a) {
                before@.nodes[a].owner
            } else {
                owner
            }
            &&& field_of(after@.nodes[a].data, "next"@) is Some || first + count == 1
            &&& forall|b: Seq<char>|
                b != a ==> (#[trigger] after@.nodes.contains_key(b) <==> before@.nodes.contains_key(b)) && (
                after@.nodes.contains_key(b) ==> after@.nodes[b] == before@.nodes[b])
            &&& other != name ==> "__sequence"@ + ":"@ + other != a
        }),
{
    let data = choose|data: Seq<char>| {
        &&& #[trigger] says_next(data, (first + count) as u64)
        &&& inserts(Ok(()), before, after, sequence_node(before@, name, owner, data))
    };
    let n = sequence_node(before@, name, owner, data);
    lemma_inserted(before@, n, next_version(before));
    let a = sequence_address(name);
    assert(a == "__sequence"@ + ":"@ + name);
    if other != name {
        let b = "__sequence"@ + ":"@ + other;
        let k = ("__sequence"@ + ":"@).len() as int;
        if a == b {
            assert(a.skip(k) =~= name);
            assert(b.skip(k) =~= other);
        }
    }
}

/// Numbers are refused only for a reason: the sequence is another's and the
/// requester no administrator, or so many numbers are not left; else for how
/// many are asked for, or the name.
pub proof fn law_sequence_is_refused_for_a_reason(
    e: SequenceError,
    before: StorageEngine,
    after: StorageEngine,
    name: Seq<char>,
    count: u64,
    owner: Seq<char>,
    is_admin: bool,
)
    requires
        takes(Err(e), before, after, name, count, owner, is_admin),
    ensures
        e is NotAuthorized ==> {
            let a = "__sequence"@ + ":"@ + name;
            before@.nodes.contains_key(a) && !is_admin && before@.nodes[a].owner != owner
        },
        e matches SequenceError::Exhausted { start } ==> start + count > u64::MAX,
        e is Block ==> count == 0 || count > 100_000,
        e is Name ==> utf8(name).len() == 0 || utf8(name).len() > 128 || exists|i: int|
            0 <= i < utf8(name).len() && #[trigger] utf8(name)[i] == 0x3a,
        !(e is Write) ==> after@ == before@,
{
    if !(e is Write) {
        before.lemma_same(&after);
    }
}

} // verus!
