//! Declaring indexes and references.

use vstd::prelude::*;

use crate::defs::{DefError, IndexDef, IndexDefView, ReferenceDef, ReferenceDefView, TextIndexDef, TextIndexDefView};
use crate::engine::batch::changes;
use crate::engine::search::{counts_where, law_indexes_keep_the_count};
use crate::engine::StorageEngine;
use crate::filter::Filter;
use crate::tables::answer::{all_judgeable, answered, law_text_indexes_keep_every_page};
use crate::tables::backfill::{
    backfill, dependents, first_refused, names_live, repeats, takes_row, text_covers, BackfillError, UnmetReference,
};
use crate::tables::declared::{
    lemma_data_names_apart, lemma_text_names_apart, named_data, named_reference, named_text, names_distinct,
};
use crate::tables::fold::FoldError;
use crate::tables::lists::covers;
use crate::tables::model::{
    applied, applied_all, data_fits, data_names, lemma_put_slot, name_slot, text_fits, text_names, DbView,
};
use crate::tables::plan::listing;
use crate::tables::lower::nodes_view;
use crate::tables::query::{QueryError, QueryPage, QueryView};
use crate::tables::refs::referencing;
use crate::tables::rows::{belongs, is_listing, scanned, RankBy};
use crate::tables::unique::{shared, unique_db};
use crate::transaction::{StorageFault, TransactionError};
use crate::types::{Node, NodeView};
use crate::wal::{operations_view, Operation, OperationView};

verus! {

/// Why something was not declared, or not dropped.
#[derive(Debug)]
pub enum DeclareError {
    Invalid(DefError),
    /// The name is taken, for something over this kind and field.
    Exists { kind: String, field: String },
    /// The name is taken by an index of the other sort.
    OtherSort { kind: String, field: String },
    /// Another index is over the field.
    Covered { by: String },
    Backfill(BackfillError),
    /// A node's address is too long for the text index.
    Unfit { address: String },
    /// There is no index over the field that the reference is from.
    NeedsIndex,
    /// There is no index over the field that the reference leads to.
    NeedsParentIndex,
    /// The index over the field that the reference leads to is not unique.
    NotUnique { index: String },
    Unmet(UnmetReference),
    /// References are enforced through the index.
    InUse { reference: String, count: usize },
    NotFound,
    Write(TransactionError),
}

/// The outcome of writing a declaration.
pub open spec fn declares_with(
    r: Result<(), DeclareError>,
    before: StorageEngine,
    after: StorageEngine,
    op: OperationView,
) -> bool {
    match r {
        Ok(()) => changes(Ok(()), before, after, seq![op], true),
        Err(DeclareError::Write(e)) => changes(Err(e), before, after, seq![op], true),
        Err(_) => false,
    }
}

/// The nodes that an index would be over.
pub open spec fn covered_rows(db: DbView, kind: Seq<char>) -> Seq<NodeView> {
    listing(db.nodes, scanned(Some(kind), None))
}

/// Every node of the kind fits the index.
pub open spec fn fits_all(db: DbView, d: IndexDefView) -> bool {
    forall|i: int|
        0 <= i < covered_rows(db, d.kind).len() ==> #[trigger] takes_row(d, covered_rows(db, d.kind), i)
}

/// The outcome of declaring an index.
pub open spec fn creates_index(
    r: Result<(), DeclareError>,
    before: StorageEngine,
    after: StorageEngine,
    d: IndexDefView,
) -> bool {
    let db = before@;
    if before.failed() {
        r matches Err(DeclareError::Write(TransactionError::Storage(StorageFault::Failed))) && before.unmoved(&after)
    } else if d.checked() is Err {
        &&& r matches Err(DeclareError::Invalid(e))
        &&& d.checked() == Err::<(), DefError>(e)
        &&& before.unmoved(&after)
    } else if named_data(db, d.name) is Some {
        let held = named_data(db, d.name)->0;
        &&& before.unmoved(&after)
        &&& if held == d {
            r is Ok
        } else {
            &&& r matches Err(DeclareError::Exists { kind, field })
            &&& kind@ == held.kind
            &&& field@ == held.field
        }
    } else if named_text(db, d.name) is Some {
        let held = named_text(db, d.name)->0;
        &&& r matches Err(DeclareError::OtherSort { kind, field })
        &&& kind@ == held.kind
        &&& field@ == held.field
        &&& before.unmoved(&after)
    } else if covers(db.data, d.kind, d.field) is Some {
        &&& r matches Err(DeclareError::Covered { by })
        &&& by@ == db.data[covers(db.data, d.kind, d.field)->0].name
        &&& before.unmoved(&after)
    } else if !fits_all(db, d) {
        &&& r matches Err(DeclareError::Backfill(e))
        &&& backfill(Err(e), d, covered_rows(db, d.kind))
        &&& before.unmoved(&after)
    } else {
        declares_with(r, before, after, OperationView::CreateIndex(d))
    }
}

proof fn lemma_refused_row(e: BackfillError, d: IndexDefView, rows: Seq<NodeView>)
    requires
        backfill(Err(e), d, rows),
    ensures
        exists|i: int| 0 <= i < rows.len() && !#[trigger] takes_row(d, rows, i),
{
    match e {
        BackfillError::Unfit { address } => {
            let i = choose|i: int| {
                &&& #[trigger] first_refused(d, rows, i)
                &&& !data_fits(d, rows[i])
                &&& address@ == rows[i].address
            };
            assert(!takes_row(d, rows, i));
        },
        BackfillError::Shared { first, second } => {
            let (i, j) = choose|i: int, j: int| {
                &&& #[trigger] first_refused(d, rows, i)
                &&& data_fits(d, rows[i])
                &&& #[trigger] repeats(d, rows, j, i)
                &&& first@ == rows[j].address
                &&& second@ == rows[i].address
            };
            assert(!takes_row(d, rows, i));
        },
    }
}

impl StorageEngine {
    /// Writes one operation that declares or drops something.
    fn declare(&mut self, operation: Operation) -> (r: Result<(), DeclareError>)
        requires
            old(self).inv(),
            !(operation@ is Archive),
        ensures
            final(self).inv(),
            declares_with(r, *old(self), *final(self), operation@),
    {
        let ghost op = operation@;
        let mut ops: Vec<Operation> = Vec::new();
        ops.push(operation);
        proof {
            assert(operations_view(ops@) =~= seq![op]);
        }
        match self.apply_atomic(ops, true) {
            Ok(()) => Ok(()),
            Err(e) => Err(DeclareError::Write(e)),
        }
    }

    /// Declares an index over a field of a kind. Declaring the same index
    /// again changes nothing.
    pub fn create_index(&mut self, def: IndexDef) -> (r: Result<(), DeclareError>)
        requires
            old(self).inv(),
        ensures
            final(self).inv(),
            creates_index(r, *old(self), *final(self), def@),
    {
        let ghost start = *self;
        let ghost d = def@;
        if self.failed {
            return Err(DeclareError::Write(TransactionError::Storage(StorageFault::Failed)));
        }
        match def.validate() {
            Ok(()) => {},
            Err(e) => { return Err(DeclareError::Invalid(e)) },
        }
        match self.tables.data_named(&def.name) {
            Some(held) => {
                if held.same(&def) {
                    return Ok(());
                }
                return Err(DeclareError::Exists { kind: held.kind.clone(), field: held.field.clone() });
            },
            None => {},
        }
        match self.tables.text_named(&def.name) {
            Some(held) => {
                return Err(DeclareError::OtherSort { kind: held.kind.clone(), field: held.field.clone() });
            },
            None => {},
        }
        match self.tables.data_over(&def.kind, &def.field) {
            Some(other) => {
                return Err(DeclareError::Covered { by: other.name.clone() });
            },
            None => {},
        }
        match self.tables.check_backfill_admissible(&def, &mut self.cache) {
            Ok(()) => {},
            Err(e) => {
                proof {
                    lemma_refused_row(e, d, covered_rows(start@, d.kind));
                }
                return Err(DeclareError::Backfill(e));
            },
        }
        proof {
            start.lemma_same(self);
        }
        self.declare(Operation::CreateIndex(def))
    }
}

/// Every node of the kind fits the text index.
pub open spec fn text_fits_all(db: DbView, d: TextIndexDefView) -> bool {
    forall|a: Seq<char>| #[trigger] db.nodes.contains_key(a) ==> text_fits(d, db.nodes[a])
}

/// The outcome of declaring a text index.
pub open spec fn creates_text_index(
    r: Result<(), DeclareError>,
    before: StorageEngine,
    after: StorageEngine,
    d: TextIndexDefView,
) -> bool {
    let db = before@;
    if before.failed() {
        r matches Err(DeclareError::Write(TransactionError::Storage(StorageFault::Failed))) && before.unmoved(&after)
    } else if d.checked() is Err {
        &&& r matches Err(DeclareError::Invalid(e))
        &&& d.checked() == Err::<(), DefError>(e)
        &&& before.unmoved(&after)
    } else if named_text(db, d.name) is Some {
        let held = named_text(db, d.name)->0;
        &&& before.unmoved(&after)
        &&& if held == d {
            r is Ok
        } else {
            &&& r matches Err(DeclareError::Exists { kind, field })
            &&& kind@ == held.kind
            &&& field@ == held.field
        }
    } else if named_data(db, d.name) is Some {
        let held = named_data(db, d.name)->0;
        &&& r matches Err(DeclareError::OtherSort { kind, field })
        &&& kind@ == held.kind
        &&& field@ == held.field
        &&& before.unmoved(&after)
    } else if text_covers(db.text, d.kind, d.field, 0) is Some {
        &&& r matches Err(DeclareError::Covered { by })
        &&& by@ == db.text[text_covers(db.text, d.kind, d.field, 0)->0].name
        &&& before.unmoved(&after)
    } else if !text_fits_all(db, d) {
        &&& r matches Err(DeclareError::Unfit { address })
        &&& db.nodes.contains_key(address@)
        &&& !text_fits(d, db.nodes[address@])
        &&& before.unmoved(&after)
    } else {
        declares_with(r, before, after, OperationView::CreateTextIndex(d))
    }
}

/// The outcome of dropping an index.
pub open spec fn drops_index(
    r: Result<(), DeclareError>,
    before: StorageEngine,
    after: StorageEngine,
    name: Seq<char>,
) -> bool {
    let db = before@;
    if before.failed() {
        r matches Err(DeclareError::Write(TransactionError::Storage(StorageFault::Failed))) && before.unmoved(&after)
    } else {
        match named_data(db, name) {
            None => if named_text(db, name) is Some {
                declares_with(r, before, after, OperationView::DropTextIndex(name))
            } else {
                r matches Err(DeclareError::NotFound) && before.unmoved(&after)
            },
            Some(d) => {
                let leaning = dependents(db.references, d.kind, d.field);
                if leaning.len() > 0 {
                    &&& r matches Err(DeclareError::InUse { reference, count })
                    &&& reference@ == leaning[0].name
                    &&& count == leaning.len()
                    &&& before.unmoved(&after)
                } else {
                    declares_with(r, before, after, OperationView::DropIndex(name))
                }
            },
        }
    }
}

/// Every node of the kind names one that is there.
pub open spec fn all_name_live(db: DbView, d: ReferenceDefView) -> bool {
    forall|i: int| 0 <= i < covered_rows(db, d.kind).len() ==> names_live(db, d, #[trigger] covered_rows(db, d.kind)[i])
}

/// The first node of the kind that names none that is there.
pub open spec fn first_dangling(db: DbView, d: ReferenceDefView, e: UnmetReference) -> bool {
    let rows = covered_rows(db, d.kind);
    match e {
        UnmetReference::Dangling { address, value } => exists|i: int| {
            &&& 0 <= i < rows.len()
            &&& !names_live(db, d, #[trigger] rows[i])
            &&& forall|k: int| 0 <= k < i ==> names_live(db, d, #[trigger] rows[k])
            &&& address@ == rows[i].address
            &&& value@ == referencing(rows[i], d)->0.text
        },
        UnmetReference::IndexGone => false,
    }
}

/// The outcome of declaring a reference.
pub open spec fn creates_reference(
    r: Result<(), DeclareError>,
    before: StorageEngine,
    after: StorageEngine,
    d: ReferenceDefView,
) -> bool {
    let db = before@;
    if before.failed() {
        r matches Err(DeclareError::Write(TransactionError::Storage(StorageFault::Failed))) && before.unmoved(&after)
    } else if d.checked() is Err {
        &&& r matches Err(DeclareError::Invalid(e))
        &&& d.checked() == Err::<(), DefError>(e)
        &&& before.unmoved(&after)
    } else if named_reference(db, d.name) is Some {
        let held = named_reference(db, d.name)->0;
        &&& before.unmoved(&after)
        &&& if held == d {
            r is Ok
        } else {
            &&& r matches Err(DeclareError::Exists { kind, field })
            &&& kind@ == held.kind
            &&& field@ == held.field
        }
    } else if covers(db.data, d.kind, d.field) is None {
        r matches Err(DeclareError::NeedsIndex) && before.unmoved(&after)
    } else if d.parent_field is Some && covers(db.data, d.parent_kind, d.parent_field->0) is None {
        r matches Err(DeclareError::NeedsParentIndex) && before.unmoved(&after)
    } else if d.parent_field is Some && !db.data[covers(db.data, d.parent_kind, d.parent_field->0)->0].unique {
        &&& r matches Err(DeclareError::NotUnique { index })
        &&& index@ == db.data[covers(db.data, d.parent_kind, d.parent_field->0)->0].name
        &&& before.unmoved(&after)
    } else if !all_name_live(db, d) {
        &&& r matches Err(DeclareError::Unmet(e))
        &&& first_dangling(db, d, e)
        &&& before.unmoved(&after)
    } else {
        declares_with(r, before, after, OperationView::CreateReference(d))
    }
}

/// The outcome of dropping a reference.
pub open spec fn drops_reference(
    r: Result<(), DeclareError>,
    before: StorageEngine,
    after: StorageEngine,
    name: Seq<char>,
) -> bool {
    if before.failed() {
        r matches Err(DeclareError::Write(TransactionError::Storage(StorageFault::Failed))) && before.unmoved(&after)
    } else if named_reference(before@, name) is None {
        r matches Err(DeclareError::NotFound) && before.unmoved(&after)
    } else {
        declares_with(r, before, after, OperationView::DropReference(name))
    }
}

impl StorageEngine {
    /// Declares an inverted index over the text of a field of a kind.
    /// Declaring the same index again changes nothing.
    pub fn create_text_index(&mut self, def: TextIndexDef) -> (r: Result<(), DeclareError>)
        requires
            old(self).inv(),
        ensures
            final(self).inv(),
            creates_text_index(r, *old(self), *final(self), def@),
    {
        let ghost start = *self;
        if self.failed {
            return Err(DeclareError::Write(TransactionError::Storage(StorageFault::Failed)));
        }
        match def.validate() {
            Ok(()) => {},
            Err(e) => { return Err(DeclareError::Invalid(e)) },
        }
        match self.tables.text_named(&def.name) {
            Some(held) => {
                if held.same(&def) {
                    return Ok(());
                }
                return Err(DeclareError::Exists { kind: held.kind.clone(), field: held.field.clone() });
            },
            None => {},
        }
        match self.tables.data_named(&def.name) {
            Some(held) => {
                return Err(DeclareError::OtherSort { kind: held.kind.clone(), field: held.field.clone() });
            },
            None => {},
        }
        match self.tables.text_over(&def.kind, &def.field) {
            Some(other) => {
                return Err(DeclareError::Covered { by: other.name.clone() });
            },
            None => {},
        }
        match self.tables.unfit_for_text(&def, &mut self.cache) {
            Some(address) => {
                return Err(DeclareError::Unfit { address });
            },
            None => {},
        }
        proof {
            start.lemma_same(self);
        }
        self.declare(Operation::CreateTextIndex(def))
    }

    /// Drops an index, of the one sort or the other, unless references are
    /// enforced through it.
    pub fn drop_index(&mut self, name: &str) -> (r: Result<(), DeclareError>)
        requires
            old(self).inv(),
        ensures
            final(self).inv(),
            drops_index(r, *old(self), *final(self), name@),
    {
        if self.failed {
            return Err(DeclareError::Write(TransactionError::Storage(StorageFault::Failed)));
        }
        match self.tables.data_named(name) {
            Some(def) => match self.tables.depending_on_index(&def.kind, &def.field) {
                Some((reference, count)) => {
                    return Err(DeclareError::InUse { reference, count });
                },
                None => {},
            },
            None => {
                if self.tables.text_named(name).is_some() {
                    return self.declare(Operation::DropTextIndex(crate::text::own(name)));
                }
                return Err(DeclareError::NotFound);
            },
        }
        self.declare(Operation::DropIndex(crate::text::own(name)))
    }

    /// Declares that a field of a kind names a node of another. Declaring the
    /// same reference again changes nothing.
    pub fn create_reference(&mut self, def: ReferenceDef) -> (r: Result<(), DeclareError>)
        requires
            old(self).inv(),
        ensures
            final(self).inv(),
            creates_reference(r, *old(self), *final(self), def@),
    {
        let ghost start = *self;
        if self.failed {
            return Err(DeclareError::Write(TransactionError::Storage(StorageFault::Failed)));
        }
        match def.validate() {
            Ok(()) => {},
            Err(e) => { return Err(DeclareError::Invalid(e)) },
        }
        match self.tables.reference_named(&def.name) {
            Some(held) => {
                if held.same(&def) {
                    return Ok(());
                }
                return Err(DeclareError::Exists { kind: held.kind.clone(), field: held.field.clone() });
            },
            None => {},
        }
        if self.tables.data_over(&def.kind, &def.field).is_none() {
            return Err(DeclareError::NeedsIndex);
        }
        match &def.parent_field {
            Some(parent) => match self.tables.data_over(&def.parent_kind, parent) {
                Some(index) => {
                    if !index.unique {
                        return Err(DeclareError::NotUnique { index: index.name.clone() });
                    }
                },
                None => { return Err(DeclareError::NeedsParentIndex) },
            },
            None => {},
        }
        match self.tables.check_reference_satisfied(&def, &mut self.cache) {
            Ok(()) => {},
            Err(e) => {
                return Err(DeclareError::Unmet(e));
            },
        }
        proof {
            start.lemma_same(self);
        }
        self.declare(Operation::CreateReference(def))
    }

    /// Drops a reference.
    pub fn drop_reference(&mut self, name: &str) -> (r: Result<(), DeclareError>)
        requires
            old(self).inv(),
        ensures
            final(self).inv(),
            drops_reference(r, *old(self), *final(self), name@),
    {
        if self.failed {
            return Err(DeclareError::Write(TransactionError::Storage(StorageFault::Failed)));
        }
        if self.tables.reference_named(name).is_none() {
            return Err(DeclareError::NotFound);
        }
        self.declare(Operation::DropReference(crate::text::own(name)))
    }
}

// ---------------------------------------------------------------------
// Laws
// ---------------------------------------------------------------------

/// A unique index is unique from the start: declaring an index keeps what
/// unique indexes promise, of the new one too.
pub proof fn law_unique_from_the_start(before: StorageEngine, after: StorageEngine, d: IndexDefView)
    requires
        before.inv(),
        unique_db(before@),
        creates_index(Ok(()), before, after, d),
    ensures
        unique_db(after@),
{
    let db = before@;
    if named_data(db, d.name) is Some {
        before.lemma_same(&after);
    } else {
        let op = OperationView::CreateIndex(d);
        assert(seq![op].drop_last() =~= Seq::<OperationView>::empty());
        assert(seq![op].last() == op);
        assert(after@ == applied(db, op)) by {
            reveal_with_fuel(applied_all, 2);
        }
        let listed = before.tables.lemma_kind_rows(d.kind);
        let rows = covered_rows(db, d.kind);
        assert(is_listing(rows, db.nodes, scanned(Some(d.kind), None), RankBy::Address, None, false));
        let names = data_names(db.data);
        let at = name_slot(names, d.name);
        assert forall|x: int, a: Seq<char>, b: Seq<char>| !#[trigger] shared(after@, x, a, b) by {
            if shared(after@, x, a, b) {
                crate::tables::replay::lemma_slot_within(names, d.name);
                if x == at {
                    assert(after@.data[x] == d);
                    let (m, n) = (db.nodes[a], db.nodes[b]);
                    assert(belongs(db.nodes, scanned(Some(d.kind), None), RankBy::Address, None, false, m));
                    assert(belongs(db.nodes, scanned(Some(d.kind), None), RankBy::Address, None, false, n));
                    let i = choose|i: int| 0 <= i < rows.len() && rows[i] == m;
                    let j = choose|j: int| 0 <= j < rows.len() && rows[j] == n;
                    assert(takes_row(d, rows, i));
                    assert(takes_row(d, rows, j));
                    if i < j {
                        assert(repeats(d, rows, i, j));
                    } else {
                        assert(i != j);
                        assert(repeats(d, rows, j, i));
                    }
                } else {
                    let y = if names.len() > at && names[at] == d.name || x < at {
                        x
                    } else {
                        x - 1
                    };
                    assert(after@.data[x] == db.data[y]);
                    assert(shared(db, y, a, b));
                }
            }
        }
    }
}

/// Declaring an index keeps the names of both sorts apart.
pub proof fn law_index_names_stay_distinct(before: StorageEngine, after: StorageEngine, d: IndexDefView)
    requires
        before.inv(),
        names_distinct(before@),
        creates_index(Ok(()), before, after, d),
    ensures
        names_distinct(after@),
{
    if named_data(before@, d.name) is Some {
        before.lemma_same(&after);
    } else {
        lemma_declared_one(before, after, OperationView::CreateIndex(d));
        before.lemma_log();
        lemma_data_names_apart(before@, d);
    }
}

/// Declaring a text index keeps the names of both sorts apart.
pub proof fn law_text_index_names_stay_distinct(before: StorageEngine, after: StorageEngine, d: TextIndexDefView)
    requires
        before.inv(),
        names_distinct(before@),
        creates_text_index(Ok(()), before, after, d),
    ensures
        names_distinct(after@),
{
    if named_text(before@, d.name) is Some {
        before.lemma_same(&after);
    } else {
        lemma_declared_one(before, after, OperationView::CreateTextIndex(d));
        before.lemma_log();
        lemma_text_names_apart(before@, d);
    }
}

proof fn lemma_declared_one(before: StorageEngine, after: StorageEngine, op: OperationView)
    requires
        changes(Ok(()), before, after, seq![op], true),
    ensures
        after@ == applied(before@, op),
{
    assert(seq![op].drop_last() =~= Seq::<OperationView>::empty());
    assert(seq![op].last() == op);
    reveal_with_fuel(applied_all, 2);
}

/// Declaring an index changes no node.
pub proof fn law_index_changes_no_node(before: StorageEngine, after: StorageEngine, d: IndexDefView)
    requires
        creates_index(Ok(()), before, after, d),
    ensures
        after@.nodes == before@.nodes,
        after.limits() == before.limits(),
        !after.failed(),
{
    if named_data(before@, d.name) is Some {
        before.lemma_same(&after);
    } else {
        lemma_declared_one(before, after, OperationView::CreateIndex(d));
    }
}

/// Declaring a text index changes no node, and no index over values.
pub proof fn law_text_index_changes_no_node(before: StorageEngine, after: StorageEngine, d: TextIndexDefView)
    requires
        creates_text_index(Ok(()), before, after, d),
    ensures
        after@.nodes == before@.nodes,
        after@.data == before@.data,
        after.limits() == before.limits(),
        !after.failed(),
{
    if named_text(before@, d.name) is Some {
        before.lemma_same(&after);
    } else {
        lemma_declared_one(before, after, OperationView::CreateTextIndex(d));
    }
}

/// Dropping an index changes no node.
pub proof fn law_drop_changes_no_node(before: StorageEngine, after: StorageEngine, name: Seq<char>)
    requires
        drops_index(Ok(()), before, after, name),
    ensures
        after@.nodes == before@.nodes,
        after.limits() == before.limits(),
        !after.failed(),
{
    if named_data(before@, name) is Some {
        lemma_declared_one(before, after, OperationView::DropIndex(name));
    } else {
        lemma_declared_one(before, after, OperationView::DropTextIndex(name));
    }
}

/// Declaring a text index again succeeds, and changes nothing.
pub proof fn law_text_index_is_declared_once(
    before: StorageEngine,
    after: StorageEngine,
    r: Result<(), DeclareError>,
    again: StorageEngine,
    d: TextIndexDefView,
)
    requires
        creates_text_index(Ok(()), before, after, d),
        creates_text_index(r, after, again, d),
    ensures
        r is Ok,
        after.unmoved(&again),
{
    let db = before@;
    law_text_index_changes_no_node(before, after, d);
    if named_text(db, d.name) is Some {
        before.lemma_same(&after);
    } else {
        lemma_declared_one(before, after, OperationView::CreateTextIndex(d));
        let names = text_names(db.text);
        let at = name_slot(names, d.name);
        lemma_put_slot(names, d.name);
        assert(after@.text == db.text.insert(at, d));
        assert(text_names(after@.text) =~= names.insert(at, d.name));
        assert(named_text(after@, d.name) == Some(d));
    }
}

/// A text index changes no answer: where every node can be judged, each page
/// of a query, from the first to the last, has the rows it had, and the same
/// place to go on.
pub proof fn law_text_index_keeps_every_page<F: Fn(&Filter, &Node) -> Result<bool, String>>(
    before: StorageEngine,
    after: StorageEngine,
    d: TextIndexDefView,
    one: Result<QueryPage, QueryError>,
    other: Result<QueryPage, QueryError>,
    eval: F,
    q: QueryView,
    order: Option<Seq<char>>,
    desc: bool,
    from: Option<Seq<char>>,
    limit: nat,
    offset: nat,
)
    requires
        creates_text_index(Ok(()), before, after, d),
        all_judgeable(before@.nodes, eval, q),
        answered(
            one,
            before@,
            eval,
            q,
            order,
            desc,
            from,
            limit,
            offset,
            before.limits().max_query_offset as nat,
            before.limits().max_scan_rows as nat,
        ),
        answered(
            other,
            after@,
            eval,
            q,
            order,
            desc,
            from,
            limit,
            offset,
            after.limits().max_query_offset as nat,
            after.limits().max_scan_rows as nat,
        ),
    ensures
        one is Ok <==> other is Ok,
        one is Ok ==> nodes_view(one->Ok_0.nodes@) == nodes_view(other->Ok_0.nodes@) && one->Ok_0.next@
            == other->Ok_0.next@,
{
    law_text_index_changes_no_node(before, after, d);
    law_text_indexes_keep_every_page(
        one,
        other,
        before@,
        after@,
        eval,
        q,
        order,
        desc,
        from,
        limit,
        offset,
        before.limits().max_query_offset as nat,
        before.limits().max_scan_rows as nat,
    );
}

/// A text index changes no count.
pub proof fn law_text_index_keeps_every_count<F: Fn(&Filter, &Node) -> Result<bool, String>>(
    before: StorageEngine,
    after: StorageEngine,
    d: TextIndexDefView,
    one: Result<u64, FoldError>,
    other: Result<u64, FoldError>,
    eval: F,
    q: QueryView,
)
    requires
        creates_text_index(Ok(()), before, after, d),
        !before.failed(),
        counts_where(one, before, eval, q),
        counts_where(other, after, eval, q),
    ensures
        one is Ok && other is Ok ==> one->Ok_0 == other->Ok_0,
        all_judgeable(before@.nodes, eval, q) ==> one is Ok && other is Ok,
{
    law_text_index_changes_no_node(before, after, d);
    law_indexes_keep_the_count(one, other, before, after, eval, q);
}

} // verus!
