//! The declared indexes: their trees, kept up with the nodes.

use vstd::prelude::*;

use crate::btree::model::MAX_KEY_LEN;
use crate::btree::{BTree, TreeError};
use crate::bytes::Order;
use crate::defs::{IndexDef, IndexDefView, ReferenceDef, ReferenceDefView, TextIndexDef, TextIndexDefView};
use crate::json::{field, field_of};
use crate::keys::{data_key, gram_key, grams, has_gram, holds_bytes, indexed_text, indexed_text_of, text_key, GRAM_LEN};
use crate::tables::model::{
    data_fits, data_names, entry, lemma_name_slot, name_slot, names_sorted, reference_names, text_fits, text_names,
    NodeIndex,
};
use crate::text::{str_eq, str_order, text_lt, utf8};
use crate::types::{Node, NodeView};

verus! {

/// A data index and its tree.
pub struct DataIndex {
    pub def: IndexDef,
    pub tree: BTree,
}

/// A text index and its tree.
pub struct TextIndex {
    pub def: TextIndexDef,
    pub tree: BTree,
}

pub open spec fn data_defs(list: Seq<DataIndex>) -> Seq<IndexDefView> {
    Seq::new(list.len(), |i: int| list[i].def@)
}

pub open spec fn text_defs(list: Seq<TextIndex>) -> Seq<TextIndexDefView> {
    Seq::new(list.len(), |i: int| list[i].def@)
}

pub open spec fn reference_defs(list: Seq<ReferenceDef>) -> Seq<ReferenceDefView> {
    Seq::new(list.len(), |i: int| list[i]@)
}

pub open spec fn data_wf(list: Seq<DataIndex>) -> bool {
    forall|i: int| 0 <= i < list.len() ==> (#[trigger] list[i]).tree.wf()
}

pub open spec fn text_wf(list: Seq<TextIndex>) -> bool {
    forall|i: int| 0 <= i < list.len() ==> (#[trigger] list[i]).tree.wf()
}

/// Every tree can take one change more.
pub open spec fn data_roomy(list: Seq<DataIndex>) -> bool {
    forall|i: int| 0 <= i < list.len() ==> (#[trigger] list[i]).tree.has_room_spec()
}

pub open spec fn text_roomy(list: Seq<TextIndex>) -> bool {
    forall|i: int| 0 <= i < list.len() ==> (#[trigger] list[i]).tree.has_room_spec()
}

/// From `a` to `b` the trees lost the keys of the node.
pub open spec fn data_lost(a: Seq<DataIndex>, b: Seq<DataIndex>, n: NodeView) -> bool {
    &&& b.len() == a.len()
    &&& forall|i: int|
        0 <= i < a.len() ==> (#[trigger] b[i]).def@ == a[i].def@ && data_tree_lost(a[i], b[i], n)
}

pub open spec fn data_tree_lost(a: DataIndex, b: DataIndex, n: NodeView) -> bool {
    forall|k: Seq<u8>| #[trigger]
        b.tree@.contains_key(k) <==> a.tree@.contains_key(k) && !entry(NodeIndex::Data(a.def@), n, k)
}

/// From `a` to `b` the trees got the keys of the node.
pub open spec fn data_gained(a: Seq<DataIndex>, b: Seq<DataIndex>, n: NodeView) -> bool {
    &&& b.len() == a.len()
    &&& forall|i: int|
        0 <= i < a.len() ==> (#[trigger] b[i]).def@ == a[i].def@ && data_tree_gained(a[i], b[i], n)
}

pub open spec fn data_tree_gained(a: DataIndex, b: DataIndex, n: NodeView) -> bool {
    forall|k: Seq<u8>| #[trigger]
        b.tree@.contains_key(k) <==> a.tree@.contains_key(k) || entry(NodeIndex::Data(a.def@), n, k)
}

pub open spec fn text_lost(a: Seq<TextIndex>, b: Seq<TextIndex>, n: NodeView) -> bool {
    &&& b.len() == a.len()
    &&& forall|i: int|
        0 <= i < a.len() ==> (#[trigger] b[i]).def@ == a[i].def@ && text_tree_lost(a[i], b[i], n)
}

pub open spec fn text_tree_lost(a: TextIndex, b: TextIndex, n: NodeView) -> bool {
    forall|k: Seq<u8>| #[trigger]
        b.tree@.contains_key(k) <==> a.tree@.contains_key(k) && !entry(NodeIndex::Text(a.def@), n, k)
}

pub open spec fn text_gained(a: Seq<TextIndex>, b: Seq<TextIndex>, n: NodeView) -> bool {
    &&& b.len() == a.len()
    &&& forall|i: int|
        0 <= i < a.len() ==> (#[trigger] b[i]).def@ == a[i].def@ && text_tree_gained(a[i], b[i], n)
}

pub open spec fn text_tree_gained(a: TextIndex, b: TextIndex, n: NodeView) -> bool {
    forall|k: Seq<u8>| #[trigger]
        b.tree@.contains_key(k) <==> a.tree@.contains_key(k) || entry(NodeIndex::Text(a.def@), n, k)
}

impl DataIndex {
    /// Takes the node's key out of the tree.
    pub fn retract(&mut self, node: &Node) -> (r: Result<(), TreeError>)
        requires
            old(self).tree.wf(),
        ensures
            final(self).tree.wf(),
            final(self).def@ == old(self).def@,
            match r {
                Ok(()) => data_tree_lost(*old(self), *final(self), node@),
                Err(e) => !final(self).tree.has_room_spec(),
            },
    {
        if !str_eq(&self.def.kind, &node.kind) {
            return Ok(());
        }
        let value = field(&node.data, &self.def.field);
        let key = data_key(value.as_ref(), &node.address);
        match self.tree.remove(&key) {
            Ok(_) => Ok(()),
            Err(e) => Err(e),
        }
    }

    /// Puts the node's key in the tree.
    pub fn assert_keys(&mut self, node: &Node) -> (r: Result<(), TreeError>)
        requires
            old(self).tree.wf(),
            data_fits(old(self).def@, node@),
        ensures
            final(self).tree.wf(),
            final(self).def@ == old(self).def@,
            match r {
                Ok(()) => data_tree_gained(*old(self), *final(self), node@),
                Err(e) => !final(self).tree.has_room_spec(),
            },
    {
        if !str_eq(&self.def.kind, &node.kind) {
            return Ok(());
        }
        let value = field(&node.data, &self.def.field);
        let key = data_key(value.as_ref(), &node.address);
        let empty: Vec<u8> = Vec::new();
        proof {
            crate::order::lemma_code_end(field_of(node@.data, self.def@.field), Seq::empty());
        }
        self.tree.put(&key, &empty)
    }
}

/// Takes the keys of a node out of the data indexes.
pub fn retract_data_keys(list: &mut Vec<DataIndex>, node: &Node) -> (r: Result<(), TreeError>)
    requires
        data_wf(old(list)@),
    ensures
        data_wf(final(list)@),
        data_defs(final(list)@) == data_defs(old(list)@),
        match r {
            Ok(()) => data_lost(old(list)@, final(list)@, node@),
            Err(e) => !data_roomy(final(list)@),
        },
{
    let n: usize = list.len();
    let mut i: usize = 0;
    while i < n
        invariant
            n == list@.len(),
            n == old(list)@.len(),
            i <= n,
            data_wf(list@),
            forall|j: int| 0 <= j < n ==> (#[trigger] list@[j]).def@ == old(list)@[j].def@,
            forall|j: int| 0 <= j < i ==> data_tree_lost(old(list)@[j], #[trigger] list@[j], node@),
            forall|j: int| i <= j < n ==> #[trigger] list@[j] == old(list)@[j],
        decreases n - i,
    {
        let ghost before = list@;
        let r = list[i].retract(node);
        proof {
            assert forall|j: int| 0 <= j < n implies (#[trigger] list@[j]).tree.wf() && list@[j].def@ == old(
                list,
            )@[j].def@ by {
                if j != i {
                    assert(list@[j] == before[j]);
                }
            }
        }
        match r {
            Ok(()) => {},
            Err(e) => {
                proof {
                    assert(!list@[i as int].tree.has_room_spec());
                    assert(data_defs(list@) =~= data_defs(old(list)@));
                }
                return Err(e);
            },
        }
        i = i + 1;
    }
    proof {
        assert(data_defs(list@) =~= data_defs(old(list)@));
    }
    Ok(())
}

/// Puts the keys of a node in the data indexes.
pub fn assert_data_keys(list: &mut Vec<DataIndex>, node: &Node) -> (r: Result<(), TreeError>)
    requires
        data_wf(old(list)@),
        forall|i: int| 0 <= i < old(list)@.len() ==> data_fits((#[trigger] old(list)@[i]).def@, node@),
    ensures
        data_wf(final(list)@),
        data_defs(final(list)@) == data_defs(old(list)@),
        match r {
            Ok(()) => data_gained(old(list)@, final(list)@, node@),
            Err(e) => !data_roomy(final(list)@),
        },
{
    let n: usize = list.len();
    let mut i: usize = 0;
    while i < n
        invariant
            n == list@.len(),
            n == old(list)@.len(),
            i <= n,
            data_wf(list@),
            forall|j: int| 0 <= j < n ==> data_fits((#[trigger] old(list)@[j]).def@, node@),
            forall|j: int| 0 <= j < n ==> (#[trigger] list@[j]).def@ == old(list)@[j].def@,
            forall|j: int| 0 <= j < i ==> data_tree_gained(old(list)@[j], #[trigger] list@[j], node@),
            forall|j: int| i <= j < n ==> #[trigger] list@[j] == old(list)@[j],
        decreases n - i,
    {
        let ghost before = list@;
        proof {
            assert(data_fits(old(list)@[i as int].def@, node@));
        }
        let r = list[i].assert_keys(node);
        proof {
            assert forall|j: int| 0 <= j < n implies (#[trigger] list@[j]).tree.wf() && list@[j].def@ == old(
                list,
            )@[j].def@ by {
                if j != i {
                    assert(list@[j] == before[j]);
                }
            }
        }
        match r {
            Ok(()) => {},
            Err(e) => {
                proof {
                    assert(!list@[i as int].tree.has_room_spec());
                    assert(data_defs(list@) =~= data_defs(old(list)@));
                }
                return Err(e);
            },
        }
        i = i + 1;
    }
    proof {
        assert(data_defs(list@) =~= data_defs(old(list)@));
    }
    Ok(())
}

impl TextIndex {
    /// Takes the node's keys out of the tree.
    pub fn retract(&mut self, node: &Node) -> (r: Result<(), TreeError>)
        requires
            old(self).tree.wf(),
        ensures
            final(self).tree.wf(),
            final(self).def@ == old(self).def@,
            match r {
                Ok(()) => text_tree_lost(*old(self), *final(self), node@),
                Err(e) => !final(self).tree.has_room_spec(),
            },
    {
        if !str_eq(&self.def.kind, &node.kind) {
            return Ok(());
        }
        let value = match indexed_text(&node.data, &self.def.field) {
            Some(value) => value,
            None => { return Ok(()) },
        };
        let list = grams(&value);
        let ghost ix = NodeIndex::Text(self.def@);
        let mut i: usize = 0;
        while i < list.len()
            invariant
                self.tree.wf(),
                self.def@ == old(self).def@,
                i <= list@.len(),
                forall|j: int| 0 <= j < list@.len() ==> (#[trigger] list@[j])@.len() == GRAM_LEN,
                forall|k: Seq<u8>| #[trigger]
                    self.tree@.contains_key(k) <==> old(self).tree@.contains_key(k) && !(exists|j: int|
                        0 <= j < i && k == gram_key((#[trigger] list@[j])@, node@.address)),
            decreases list.len() - i,
        {
            let key = text_key(&list[i], &node.address);
            let ghost before = self.tree@;
            match self.tree.remove(&key) {
                Ok(_) => {},
                Err(e) => { return Err(e) },
            }
            proof {
                assert forall|k: Seq<u8>| #[trigger] self.tree@.contains_key(k) <==> old(self).tree@.contains_key(k)
                    && !(exists|j: int| 0 <= j < i + 1 && k == gram_key((#[trigger] list@[j])@, node@.address)) by {
                    assert(self.tree@.contains_key(k) <==> before.contains_key(k) && k != key@);
                    if k == key@ {
                        assert(k == gram_key(list@[i as int]@, node@.address));
                    }
                }
            }
            i = i + 1;
        }
        proof {
            assert forall|k: Seq<u8>| #[trigger] self.tree@.contains_key(k) <==> old(self).tree@.contains_key(k)
                && !entry(ix, node@, k) by {
                lemma_gram_entries(list@, value@, node@, old(self).def@, k);
            }
        }
        Ok(())
    }

    /// Puts the node's keys in the tree.
    pub fn assert_keys(&mut self, node: &Node) -> (r: Result<(), TreeError>)
        requires
            old(self).tree.wf(),
            text_fits(old(self).def@, node@),
        ensures
            final(self).tree.wf(),
            final(self).def@ == old(self).def@,
            match r {
                Ok(()) => text_tree_gained(*old(self), *final(self), node@),
                Err(e) => !final(self).tree.has_room_spec(),
            },
    {
        if !str_eq(&self.def.kind, &node.kind) {
            return Ok(());
        }
        let value = match indexed_text(&node.data, &self.def.field) {
            Some(value) => value,
            None => { return Ok(()) },
        };
        let list = grams(&value);
        let ghost ix = NodeIndex::Text(self.def@);
        let empty: Vec<u8> = Vec::new();
        let mut i: usize = 0;
        while i < list.len()
            invariant
                self.tree.wf(),
                self.def@ == old(self).def@,
                i <= list@.len(),
                empty@.len() == 0,
                GRAM_LEN + utf8(node@.address).len() <= MAX_KEY_LEN,
                forall|j: int| 0 <= j < list@.len() ==> (#[trigger] list@[j])@.len() == GRAM_LEN,
                forall|k: Seq<u8>| #[trigger]
                    self.tree@.contains_key(k) <==> old(self).tree@.contains_key(k) || (exists|j: int|
                        0 <= j < i && k == gram_key((#[trigger] list@[j])@, node@.address)),
            decreases list.len() - i,
        {
            let key = text_key(&list[i], &node.address);
            let ghost before = self.tree@;
            match self.tree.put(&key, &empty) {
                Ok(()) => {},
                Err(e) => { return Err(e) },
            }
            proof {
                assert forall|k: Seq<u8>| #[trigger] self.tree@.contains_key(k) <==> old(self).tree@.contains_key(k)
                    || (exists|j: int| 0 <= j < i + 1 && k == gram_key((#[trigger] list@[j])@, node@.address)) by {
                    assert(self.tree@.contains_key(k) <==> before.contains_key(k) || k == key@);
                    if k == key@ {
                        assert(k == gram_key(list@[i as int]@, node@.address));
                    }
                }
            }
            i = i + 1;
        }
        proof {
            assert forall|k: Seq<u8>| #[trigger] self.tree@.contains_key(k) <==> old(self).tree@.contains_key(k)
                || entry(ix, node@, k) by {
                lemma_gram_entries(list@, value@, node@, old(self).def@, k);
            }
        }
        Ok(())
    }
}

proof fn lemma_gram_entries(list: Seq<Vec<u8>>, value: Seq<char>, n: NodeView, d: TextIndexDefView, k: Seq<u8>)
    requires
        n.kind == d.kind,
        indexed_text_of(n.data, d.field) == Some(value),
        forall|j: int| 0 <= j < list.len() ==> (#[trigger] list[j])@.len() == GRAM_LEN,
        forall|g: Seq<u8>| #[trigger] holds_bytes(list, g) <==> has_gram(utf8(value), g),
    ensures
        entry(NodeIndex::Text(d), n, k) <==> exists|j: int|
            0 <= j < list.len() && k == gram_key((#[trigger] list[j])@, n.address),
{
    if entry(NodeIndex::Text(d), n, k) {
        let g = k.take(GRAM_LEN as int);
        assert(holds_bytes(list, g));
        let j = choose|j: int| 0 <= j < list.len() && (#[trigger] list[j])@ == g;
        assert(k == gram_key(list[j]@, n.address));
    }
    if exists|j: int| 0 <= j < list.len() && k == gram_key((#[trigger] list[j])@, n.address) {
        let j = choose|j: int| 0 <= j < list.len() && k == gram_key((#[trigger] list[j])@, n.address);
        assert(k.take(GRAM_LEN as int) =~= list[j]@);
        assert(holds_bytes(list, list[j]@));
    }
}

/// Takes the keys of a node out of the text indexes.
pub fn retract_text_keys(list: &mut Vec<TextIndex>, node: &Node) -> (r: Result<(), TreeError>)
    requires
        text_wf(old(list)@),
    ensures
        text_wf(final(list)@),
        text_defs(final(list)@) == text_defs(old(list)@),
        match r {
            Ok(()) => text_lost(old(list)@, final(list)@, node@),
            Err(e) => !text_roomy(final(list)@),
        },
{
    let n: usize = list.len();
    let mut i: usize = 0;
    while i < n
        invariant
            n == list@.len(),
            n == old(list)@.len(),
            i <= n,
            text_wf(list@),
            forall|j: int| 0 <= j < n ==> (#[trigger] list@[j]).def@ == old(list)@[j].def@,
            forall|j: int| 0 <= j < i ==> text_tree_lost(old(list)@[j], #[trigger] list@[j], node@),
            forall|j: int| i <= j < n ==> #[trigger] list@[j] == old(list)@[j],
        decreases n - i,
    {
        let ghost before = list@;
        let r = list[i].retract(node);
        proof {
            assert forall|j: int| 0 <= j < n implies (#[trigger] list@[j]).tree.wf() && list@[j].def@ == old(
                list,
            )@[j].def@ by {
                if j != i {
                    assert(list@[j] == before[j]);
                }
            }
        }
        match r {
            Ok(()) => {},
            Err(e) => {
                proof {
                    assert(!list@[i as int].tree.has_room_spec());
                    assert(text_defs(list@) =~= text_defs(old(list)@));
                }
                return Err(e);
            },
        }
        i = i + 1;
    }
    proof {
        assert(text_defs(list@) =~= text_defs(old(list)@));
    }
    Ok(())
}

/// Puts the keys of a node in the text indexes.
pub fn assert_text_keys(list: &mut Vec<TextIndex>, node: &Node) -> (r: Result<(), TreeError>)
    requires
        text_wf(old(list)@),
        forall|i: int| 0 <= i < old(list)@.len() ==> text_fits((#[trigger] old(list)@[i]).def@, node@),
    ensures
        text_wf(final(list)@),
        text_defs(final(list)@) == text_defs(old(list)@),
        match r {
            Ok(()) => text_gained(old(list)@, final(list)@, node@),
            Err(e) => !text_roomy(final(list)@),
        },
{
    let n: usize = list.len();
    let mut i: usize = 0;
    while i < n
        invariant
            n == list@.len(),
            n == old(list)@.len(),
            i <= n,
            text_wf(list@),
            forall|j: int| 0 <= j < n ==> text_fits((#[trigger] old(list)@[j]).def@, node@),
            forall|j: int| 0 <= j < n ==> (#[trigger] list@[j]).def@ == old(list)@[j].def@,
            forall|j: int| 0 <= j < i ==> text_tree_gained(old(list)@[j], #[trigger] list@[j], node@),
            forall|j: int| i <= j < n ==> #[trigger] list@[j] == old(list)@[j],
        decreases n - i,
    {
        let ghost before = list@;
        proof {
            assert(text_fits(old(list)@[i as int].def@, node@));
        }
        let r = list[i].assert_keys(node);
        proof {
            assert forall|j: int| 0 <= j < n implies (#[trigger] list@[j]).tree.wf() && list@[j].def@ == old(
                list,
            )@[j].def@ by {
                if j != i {
                    assert(list@[j] == before[j]);
                }
            }
        }
        match r {
            Ok(()) => {},
            Err(e) => {
                proof {
                    assert(!list@[i as int].tree.has_room_spec());
                    assert(text_defs(list@) =~= text_defs(old(list)@));
                }
                return Err(e);
            },
        }
        i = i + 1;
    }
    proof {
        assert(text_defs(list@) =~= text_defs(old(list)@));
    }
    Ok(())
}

// ---------------------------------------------------------------------
// By name
// ---------------------------------------------------------------------

/// Where a data index of this name stands, or would stand; and whether it
/// is there.
pub fn find_data(list: &Vec<DataIndex>, name: &str) -> (r: (usize, bool))
    requires
        names_sorted(data_names(data_defs(list@))),
    ensures
        r.0 == name_slot(data_names(data_defs(list@)), name@),
        r.0 <= list@.len(),
        r.1 == (r.0 < list@.len() && list@[r.0 as int].def@.name == name@),
{
    let ghost names = data_names(data_defs(list@));
    let mut i: usize = 0;
    while i < list.len()
        invariant
            i <= list@.len(),
            names == data_names(data_defs(list@)),
            forall|j: int| 0 <= j < i ==> text_lt(#[trigger] names[j], name@),
        decreases list.len() - i,
    {
        match str_order(&list[i].def.name, name) {
            Order::Less => {
                proof {
                    assert(names[i as int] == list@[i as int].def@.name);
                }
            },
            Order::Equal => {
                proof {
                    assert(names[i as int] == name@);
                    crate::bytes::lemma_lt_irreflexive(utf8(name@));
                    lemma_name_slot(names, name@, i as int);
                }
                return (i, true);
            },
            Order::Greater => {
                proof {
                    crate::bytes::lemma_lt_total(utf8(names[i as int]), utf8(name@));
                    lemma_name_slot(names, name@, i as int);
                }
                return (i, false);
            },
        }
        i = i + 1;
    }
    proof {
        lemma_name_slot(names, name@, i as int);
    }
    (i, false)
}

/// Where a text index of this name stands, or would stand; and whether it
/// is there.
pub fn find_text(list: &Vec<TextIndex>, name: &str) -> (r: (usize, bool))
    requires
        names_sorted(text_names(text_defs(list@))),
    ensures
        r.0 == name_slot(text_names(text_defs(list@)), name@),
        r.0 <= list@.len(),
        r.1 == (r.0 < list@.len() && list@[r.0 as int].def@.name == name@),
{
    let ghost names = text_names(text_defs(list@));
    let mut i: usize = 0;
    while i < list.len()
        invariant
            i <= list@.len(),
            names == text_names(text_defs(list@)),
            forall|j: int| 0 <= j < i ==> text_lt(#[trigger] names[j], name@),
        decreases list.len() - i,
    {
        match str_order(&list[i].def.name, name) {
            Order::Less => {
                proof {
                    assert(names[i as int] == list@[i as int].def@.name);
                }
            },
            Order::Equal => {
                proof {
                    assert(names[i as int] == name@);
                    crate::bytes::lemma_lt_irreflexive(utf8(name@));
                    lemma_name_slot(names, name@, i as int);
                }
                return (i, true);
            },
            Order::Greater => {
                proof {
                    crate::bytes::lemma_lt_total(utf8(names[i as int]), utf8(name@));
                    lemma_name_slot(names, name@, i as int);
                }
                return (i, false);
            },
        }
        i = i + 1;
    }
    proof {
        lemma_name_slot(names, name@, i as int);
    }
    (i, false)
}

/// Where a reference of this name stands, or would stand; and whether it is
/// there.
pub fn find_reference(list: &Vec<ReferenceDef>, name: &str) -> (r: (usize, bool))
    requires
        names_sorted(reference_names(reference_defs(list@))),
    ensures
        r.0 == name_slot(reference_names(reference_defs(list@)), name@),
        r.0 <= list@.len(),
        r.1 == (r.0 < list@.len() && list@[r.0 as int]@.name == name@),
{
    let ghost names = reference_names(reference_defs(list@));
    let mut i: usize = 0;
    while i < list.len()
        invariant
            i <= list@.len(),
            names == reference_names(reference_defs(list@)),
            forall|j: int| 0 <= j < i ==> text_lt(#[trigger] names[j], name@),
        decreases list.len() - i,
    {
        match str_order(&list[i].name, name) {
            Order::Less => {
                proof {
                    assert(names[i as int] == list@[i as int]@.name);
                }
            },
            Order::Equal => {
                proof {
                    assert(names[i as int] == name@);
                    crate::bytes::lemma_lt_irreflexive(utf8(name@));
                    lemma_name_slot(names, name@, i as int);
                }
                return (i, true);
            },
            Order::Greater => {
                proof {
                    crate::bytes::lemma_lt_total(utf8(names[i as int]), utf8(name@));
                    lemma_name_slot(names, name@, i as int);
                }
                return (i, false);
            },
        }
        i = i + 1;
    }
    proof {
        lemma_name_slot(names, name@, i as int);
    }
    (i, false)
}

/// The first data index over a field of a kind, by position.
pub open spec fn covers(defs: Seq<IndexDefView>, kind: Seq<char>, name: Seq<char>) -> Option<int>
    decreases defs.len(),
{
    if defs.len() == 0 {
        None
    } else {
        match covers(defs.drop_last(), kind, name) {
            Some(i) => Some(i),
            None => if defs.last().kind == kind && defs.last().field == name {
                Some(defs.len() - 1)
            } else {
                None
            },
        }
    }
}

pub proof fn lemma_covers(defs: Seq<IndexDefView>, kind: Seq<char>, name: Seq<char>)
    ensures
        match covers(defs, kind, name) {
            Some(i) => {
                &&& 0 <= i < defs.len()
                &&& defs[i].kind == kind
                &&& defs[i].field == name
                &&& forall|j: int| 0 <= j < i ==> !((#[trigger] defs[j]).kind == kind && defs[j].field == name)
            },
            None => forall|j: int|
                0 <= j < defs.len() ==> !((#[trigger] defs[j]).kind == kind && defs[j].field == name),
        },
    decreases defs.len(),
{
    if defs.len() > 0 {
        let init = defs.drop_last();
        lemma_covers(init, kind, name);
        match covers(init, kind, name) {
            Some(i) => {
                assert forall|j: int| 0 <= j < i implies !((#[trigger] defs[j]).kind == kind && defs[j].field == name) by {
                    assert(init[j] == defs[j]);
                }
            },
            None => {
                assert forall|j: int| 0 <= j < init.len() implies !((#[trigger] defs[j]).kind == kind && defs[j].field
                    == name) by {
                    assert(init[j] == defs[j]);
                }
            },
        }
    }
}

/// The data index over a field of a kind.
pub fn data_find(list: &Vec<DataIndex>, kind: &str, name: &str) -> (r: Option<usize>)
    ensures
        match r {
            Some(i) => i < list@.len() && covers(data_defs(list@), kind@, name@) == Some(i as int),
            None => covers(data_defs(list@), kind@, name@) is None,
        },
{
    let ghost defs = data_defs(list@);
    let mut i: usize = 0;
    while i < list.len()
        invariant
            i <= list@.len(),
            defs == data_defs(list@),
            forall|j: int| 0 <= j < i ==> !((#[trigger] defs[j]).kind == kind@ && defs[j].field == name@),
        decreases list.len() - i,
    {
        if str_eq(&list[i].def.kind, kind) && str_eq(&list[i].def.field, name) {
            proof {
                lemma_covers(defs, kind@, name@);
                assert(defs[i as int].kind == kind@ && defs[i as int].field == name@);
                let k = covers(defs, kind@, name@)->0;
                if k < i {
                    assert(defs[k].kind == kind@);
                }
            }
            return Some(i);
        }
        i = i + 1;
    }
    proof {
        lemma_covers(defs, kind@, name@);
    }
    None
}

} // verus!
