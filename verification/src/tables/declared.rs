//! What is declared, by name.

use vstd::prelude::*;

use crate::defs::{IndexDef, IndexDefView, ReferenceDef, ReferenceDefView, TextIndexDef, TextIndexDefView};
use crate::tables::lists::{
    covers, data_defs, data_find, find_data, find_reference, find_text, reference_defs, text_defs,
};
use crate::tables::model::{applied, data_names, name_slot, put_named, reference_names, text_names, DbView};
use crate::tables::replay::{item_named, lemma_item_put, lemma_slot_within, well_named};
use crate::tables::Tables;
use crate::wal::OperationView;

verus! {

pub open spec fn named_data(db: DbView, name: Seq<char>) -> Option<IndexDefView> {
    let at = name_slot(data_names(db.data), name);
    if 0 <= at < db.data.len() && db.data[at].name == name {
        Some(db.data[at])
    } else {
        None
    }
}

pub open spec fn named_text(db: DbView, name: Seq<char>) -> Option<TextIndexDefView> {
    let at = name_slot(text_names(db.text), name);
    if 0 <= at < db.text.len() && db.text[at].name == name {
        Some(db.text[at])
    } else {
        None
    }
}

pub open spec fn named_reference(db: DbView, name: Seq<char>) -> Option<ReferenceDefView> {
    let at = name_slot(reference_names(db.references), name);
    if 0 <= at < db.references.len() && db.references[at].name == name {
        Some(db.references[at])
    } else {
        None
    }
}

pub open spec fn index_defs_view(list: Seq<IndexDef>) -> Seq<IndexDefView> {
    Seq::new(list.len(), |i: int| list[i]@)
}

pub open spec fn text_index_defs_view(list: Seq<TextIndexDef>) -> Seq<TextIndexDefView> {
    Seq::new(list.len(), |i: int| list[i]@)
}

impl Tables {
    /// The data index of a name.
    pub(crate) fn data_named(&self, name: &str) -> (r: Option<&IndexDef>)
        requires
            self.inv(),
        ensures
            match r {
                Some(def) => named_data(self@, name@) == Some(def@),
                None => named_data(self@, name@) is None,
            },
    {
        let (at, found) = find_data(&self.data, name);
        proof {
            if at < self.data@.len() {
                assert(data_defs(self.data@)[at as int] == self.data@[at as int].def@);
            }
        }
        if found {
            Some(&self.data[at].def)
        } else {
            None
        }
    }

    /// The text index of a name.
    pub(crate) fn text_named(&self, name: &str) -> (r: Option<&TextIndexDef>)
        requires
            self.inv(),
        ensures
            match r {
                Some(def) => named_text(self@, name@) == Some(def@),
                None => named_text(self@, name@) is None,
            },
    {
        let (at, found) = find_text(&self.text, name);
        proof {
            if at < self.text@.len() {
                assert(text_defs(self.text@)[at as int] == self.text@[at as int].def@);
            }
        }
        if found {
            Some(&self.text[at].def)
        } else {
            None
        }
    }

    /// The reference of a name.
    pub(crate) fn reference_named(&self, name: &str) -> (r: Option<&ReferenceDef>)
        requires
            self.inv(),
        ensures
            match r {
                Some(def) => named_reference(self@, name@) == Some(def@),
                None => named_reference(self@, name@) is None,
            },
    {
        let (at, found) = find_reference(&self.references, name);
        proof {
            if at < self.references@.len() {
                assert(reference_defs(self.references@)[at as int] == self.references@[at as int]@);
            }
        }
        if found {
            Some(&self.references[at])
        } else {
            None
        }
    }

    /// The data index over a field of a kind.
    pub(crate) fn data_over(&self, kind: &str, name: &str) -> (r: Option<&IndexDef>)
        requires
            self.inv(),
        ensures
            match r {
                Some(def) => covers(self@.data, kind@, name@) is Some && self@.data[covers(
                    self@.data,
                    kind@,
                    name@,
                )->0] == def@,
                None => covers(self@.data, kind@, name@) is None,
            },
    {
        match data_find(&self.data, kind, name) {
            Some(x) => {
                proof {
                    assert(data_defs(self.data@)[x as int] == self.data@[x as int].def@);
                }
                Some(&self.data[x].def)
            },
            None => None,
        }
    }

    /// The text index over a field of a kind.
    pub(crate) fn text_over(&self, kind: &str, name: &str) -> (r: Option<&TextIndexDef>)
        requires
            self.inv(),
        ensures
            match r {
                Some(def) => crate::tables::backfill::text_covers(self@.text, kind@, name@, 0) is Some
                    && self@.text[crate::tables::backfill::text_covers(self@.text, kind@, name@, 0)->0] == def@,
                None => crate::tables::backfill::text_covers(self@.text, kind@, name@, 0) is None,
            },
    {
        match self.text_find(kind, name) {
            Some(x) => {
                proof {
                    assert(text_defs(self.text@)[x as int] == self.text@[x as int].def@);
                }
                Some(&self.text[x].def)
            },
            None => None,
        }
    }

    /// The data indexes, by name.
    pub(crate) fn list_indexes(&self) -> (r: Vec<IndexDef>)
        requires
            self.inv(),
        ensures
            index_defs_view(r@) == self@.data,
    {
        let mut out: Vec<IndexDef> = Vec::new();
        let mut i: usize = 0;
        while i < self.data.len()
            invariant
                self.inv(),
                i <= self.data@.len(),
                out@.len() == i,
                forall|k: int| 0 <= k < i ==> (#[trigger] out@[k])@ == self@.data[k],
            decreases self.data.len() - i,
        {
            proof {
                assert(data_defs(self.data@)[i as int] == self.data@[i as int].def@);
            }
            out.push(self.data[i].def.copy());
            i = i + 1;
        }
        proof {
            assert(index_defs_view(out@) =~= self@.data);
        }
        out
    }

    /// The text indexes, by name.
    pub(crate) fn list_text_indexes(&self) -> (r: Vec<TextIndexDef>)
        requires
            self.inv(),
        ensures
            text_index_defs_view(r@) == self@.text,
    {
        let mut out: Vec<TextIndexDef> = Vec::new();
        let mut i: usize = 0;
        while i < self.text.len()
            invariant
                self.inv(),
                i <= self.text@.len(),
                out@.len() == i,
                forall|k: int| 0 <= k < i ==> (#[trigger] out@[k])@ == self@.text[k],
            decreases self.text.len() - i,
        {
            proof {
                assert(text_defs(self.text@)[i as int] == self.text@[i as int].def@);
            }
            out.push(self.text[i].def.copy());
            i = i + 1;
        }
        proof {
            assert(text_index_defs_view(out@) =~= self@.text);
        }
        out
    }

    /// The references, by name.
    pub(crate) fn list_references(&self) -> (r: Vec<ReferenceDef>)
        requires
            self.inv(),
        ensures
            reference_defs(r@) == self@.references,
    {
        let mut out: Vec<ReferenceDef> = Vec::new();
        let mut i: usize = 0;
        while i < self.references.len()
            invariant
                self.inv(),
                i <= self.references@.len(),
                out@.len() == i,
                forall|k: int| 0 <= k < i ==> (#[trigger] out@[k])@ == self@.references[k],
            decreases self.references.len() - i,
        {
            proof {
                assert(reference_defs(self.references@)[i as int] == self.references@[i as int]@);
            }
            out.push(self.references[i].copy());
            i = i + 1;
        }
        proof {
            assert(reference_defs(out@) =~= self@.references);
        }
        out
    }
}

// ---------------------------------------------------------------------
// Names
// ---------------------------------------------------------------------

/// No index of one sort has the name of one of the other.
pub open spec fn names_distinct(db: DbView) -> bool {
    forall|name: Seq<char>| !(#[trigger] named_data(db, name) is Some && named_text(db, name) is Some)
}

pub proof fn lemma_data_names_apart(db: DbView, d: IndexDefView)
    requires
        well_named(db),
        names_distinct(db),
        named_text(db, d.name) is None,
    ensures
        names_distinct(applied(db, OperationView::CreateIndex(d))),
{
    let after = applied(db, OperationView::CreateIndex(d));
    let names = data_names(db.data);
    lemma_slot_within(names, d.name);
    assert(data_names(after.data) =~= put_named(names, names, d.name, d.name));
    assert forall|name: Seq<char>| !(#[trigger] named_data(after, name) is Some && named_text(after, name) is Some) by {
        lemma_item_put(db.data, names, d, d.name, name);
        assert(!(named_data(db, name) is Some && named_text(db, name) is Some));
        lemma_named_data(db, name);
        lemma_named_data(after, name);
    }
}

pub proof fn lemma_text_names_apart(db: DbView, d: TextIndexDefView)
    requires
        well_named(db),
        names_distinct(db),
        named_data(db, d.name) is None,
    ensures
        names_distinct(applied(db, OperationView::CreateTextIndex(d))),
{
    let after = applied(db, OperationView::CreateTextIndex(d));
    let names = text_names(db.text);
    lemma_slot_within(names, d.name);
    assert(text_names(after.text) =~= put_named(names, names, d.name, d.name));
    assert forall|name: Seq<char>| !(#[trigger] named_data(after, name) is Some && named_text(after, name) is Some) by {
        lemma_item_put(db.text, names, d, d.name, name);
        assert(named_data(after, name) == named_data(db, name));
        assert(!(named_data(db, name) is Some && named_text(db, name) is Some));
        lemma_named_text(db, name);
        lemma_named_text(after, name);
    }
}

proof fn lemma_named_data(db: DbView, name: Seq<char>)
    ensures
        named_data(db, name) == item_named(db.data, data_names(db.data), name),
{
    let names = data_names(db.data);
    lemma_slot_within(names, name);
    assert(names.len() == db.data.len());
    let at = name_slot(names, name);
    if at < names.len() {
        assert(names[at] == db.data[at].name);
    }
}

proof fn lemma_named_text(db: DbView, name: Seq<char>)
    ensures
        named_text(db, name) == item_named(db.text, text_names(db.text), name),
{
    let names = text_names(db.text);
    lemma_slot_within(names, name);
    assert(names.len() == db.text.len());
    let at = name_slot(names, name);
    if at < names.len() {
        assert(names[at] == db.text[at].name);
    }
}

} // verus!
