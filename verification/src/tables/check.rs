//! What is checked before anything is written.

use vstd::prelude::*;

use crate::binary::MAX_RECORD_PAYLOAD_LEN;
use crate::btree::model::MAX_KEY_LEN;
use crate::cache::RecordCache;
use crate::defs::{IndexDef, TextIndexDef};
use crate::heap::{HeapRecord, HeapView};
use crate::json::field;
use crate::keys::{
    edge_out_key, history_key, indexed_text, kind_key, owner_key, part_key, GRAM_LEN, MAX_INDEX_VALUE_LEN,
};
use crate::order::encode_order_value;
use crate::tables::lists::{data_defs, text_defs};
use crate::tables::model::{
    admissible, data_fits, data_takes, edge_fits, history_fits, record_fits, text_fits, text_takes, DbView,
};
use crate::tables::rows::{belongs, is_listing, scanned, RankBy};
use crate::tables::{agrees, Tables};
use crate::text::{str_eq, utf8};
use crate::types::{Edge, Node, NodeView};
use crate::wal::{Operation, OperationView};

verus! {

/// Why an operation cannot be carried out.
#[derive(Clone, Copy, PartialEq, Eq, Debug, Structural)]
pub enum OpError {
    /// The address is empty or too long for a key.
    Address,
    /// Kind and address together are too long for a key.
    Kind,
    /// Owner and address together are too long for a key.
    Owner,
    /// A value is too long for a data index, alone or with the address.
    Value,
    /// The address is too long for a text index.
    Text,
    /// The ends and kind of an edge together are too long for a key.
    Edge,
    /// The address of a superseded state is too long for a key.
    History,
    /// The record is too long for a frame.
    Record,
}

/// What speaks against keeping a node.
pub open spec fn node_fault(db: DbView, n: NodeView) -> Option<OpError> {
    if !(1 <= utf8(n.address).len() <= MAX_KEY_LEN) {
        Some(OpError::Address)
    } else if part_key(n.kind, n.address).len() > MAX_KEY_LEN {
        Some(OpError::Kind)
    } else if part_key(n.owner, n.address).len() > MAX_KEY_LEN {
        Some(OpError::Owner)
    } else if !data_takes(db.data, n) {
        Some(OpError::Value)
    } else if !text_takes(db.text, n) {
        Some(OpError::Text)
    } else if !record_fits(HeapView::Node(n)) {
        Some(OpError::Record)
    } else {
        None
    }
}

/// What speaks against an operation. Declaring an index is checked against
/// the nodes that are there.
pub open spec fn fault(db: DbView, op: OperationView) -> Option<OpError> {
    match op {
        OperationView::Archive(h) => if !history_fits(h) {
            Some(OpError::History)
        } else if !record_fits(HeapView::History(h)) {
            Some(OpError::Record)
        } else {
            None
        },
        OperationView::Insert(n) => node_fault(db, n),
        OperationView::InsertEdge(e) => if !edge_fits(e) {
            Some(OpError::Edge)
        } else if !record_fits(HeapView::Edge(e)) {
            Some(OpError::Record)
        } else {
            None
        },
        OperationView::CreateIndex(d) => if admissible(db, op) {
            None
        } else {
            Some(OpError::Value)
        },
        OperationView::CreateTextIndex(d) => if admissible(db, op) {
            None
        } else {
            Some(OpError::Text)
        },
        _ => None,
    }
}

/// Nothing speaks against an operation just where it is admissible.
pub proof fn lemma_fault(db: DbView, op: OperationView)
    ensures
        fault(db, op) is None <==> admissible(db, op),
{
}

/// Whether a data index takes a node.
pub fn check_data_key(def: &IndexDef, node: &Node) -> (r: bool)
    ensures
        r == data_fits(def@, node@),
{
    if !str_eq(&node.kind, &def.kind) {
        return true;
    }
    let value = field(&node.data, &def.field);
    let code = encode_order_value(value.as_ref());
    let address: usize = node.address.as_str().as_bytes().len();
    code.len() <= MAX_INDEX_VALUE_LEN && address <= MAX_KEY_LEN && code.len() + address <= MAX_KEY_LEN
}

/// Whether a text index takes a node.
pub fn check_text_key(def: &TextIndexDef, node: &Node) -> (r: bool)
    ensures
        r == text_fits(def@, node@),
{
    if !str_eq(&node.kind, &def.kind) {
        return true;
    }
    match indexed_text(&node.data, &def.field) {
        Some(_) => {
            let address: usize = node.address.as_str().as_bytes().len();
            address <= MAX_KEY_LEN && GRAM_LEN + address <= MAX_KEY_LEN
        },
        None => true,
    }
}

fn check_record(record: &HeapRecord) -> (r: bool)
    ensures
        r == record_fits(record@),
{
    record.encode().len() <= MAX_RECORD_PAYLOAD_LEN
}

impl Tables {
    fn check_data_keys(&self, node: &Node) -> (r: bool)
        requires
            self.inv(),
        ensures
            r == data_takes(self@.data, node@),
    {
        let mut i: usize = 0;
        while i < self.data.len()
            invariant
                self.inv(),
                i <= self.data@.len(),
                forall|j: int| 0 <= j < i ==> data_fits(#[trigger] self@.data[j], node@),
            decreases self.data.len() - i,
        {
            proof {
                assert(data_defs(self.data@)[i as int] == self.data@[i as int].def@);
            }
            if !check_data_key(&self.data[i].def, node) {
                proof {
                    assert(!data_fits(self@.data[i as int], node@));
                }
                return false;
            }
            i = i + 1;
        }
        true
    }

    fn check_text_keys(&self, node: &Node) -> (r: bool)
        requires
            self.inv(),
        ensures
            r == text_takes(self@.text, node@),
    {
        let mut i: usize = 0;
        while i < self.text.len()
            invariant
                self.inv(),
                i <= self.text@.len(),
                forall|j: int| 0 <= j < i ==> text_fits(#[trigger] self@.text[j], node@),
            decreases self.text.len() - i,
        {
            proof {
                assert(text_defs(self.text@)[i as int] == self.text@[i as int].def@);
            }
            if !check_text_key(&self.text[i].def, node) {
                proof {
                    assert(!text_fits(self@.text[i as int], node@));
                }
                return false;
            }
            i = i + 1;
        }
        true
    }

    fn node_check(&self, node: &Node) -> (r: Option<OpError>)
        requires
            self.inv(),
        ensures
            r == node_fault(self@, node@),
    {
        let address: usize = node.address.as_str().as_bytes().len();
        if address < 1 || address > MAX_KEY_LEN {
            return Some(OpError::Address);
        }
        if kind_key(&node.kind, &node.address).len() > MAX_KEY_LEN {
            return Some(OpError::Kind);
        }
        if owner_key(&node.owner, &node.address).len() > MAX_KEY_LEN {
            return Some(OpError::Owner);
        }
        if !self.check_data_keys(node) {
            return Some(OpError::Value);
        }
        if !self.check_text_keys(node) {
            return Some(OpError::Text);
        }
        if !check_record(&HeapRecord::Node(node.copy())) {
            return Some(OpError::Record);
        }
        None
    }

    /// The first node of an index's kind, in the order of addresses, that a
    /// new data index would not take.
    pub(crate) fn unfit_for_data(&self, def: &IndexDef, cache: &mut RecordCache) -> (r: Option<String>)
        requires
            self.inv(),
            old(cache).wf(),
            agrees(old(cache)@, self.heap()),
        ensures
            final(cache).wf(),
            agrees(final(cache)@, self.heap()),
            match r {
                Some(a) => self@.nodes.contains_key(a@) && !data_fits(def@, self@.nodes[a@]),
                None => forall|a: Seq<char>| #[trigger]
                    self@.nodes.contains_key(a) ==> data_fits(def@, self@.nodes[a]),
            },
    {
        let ghost nodes = self@.nodes;
        let ghost pick = scanned(Some(def@.kind), None);
        let mut rows = self.scan_candidates(Some(&def.kind), None, None, false);
        let ghost all = rows.all();
        loop
            invariant
                self.inv(),
                nodes == self@.nodes,
                cache.wf(),
                agrees(cache@, self.heap()),
                rows.wf(self),
                rows.all() == all,
                pick == scanned(Some(def@.kind), None),
                is_listing(all, nodes, pick, RankBy::Address, None, false),
                forall|i: int| 0 <= i < rows.taken() ==> data_fits(def@, #[trigger] all[i]),
            ensures
                rows.taken() == all.len(),
            decreases all.len() - rows.taken(),
        {
            let ghost at = rows.taken() as int;
            match rows.next(self, cache) {
                None => {
                    break;
                },
                Some(node) => {
                    if !check_data_key(def, &node) {
                        proof {
                            assert(belongs(nodes, pick, RankBy::Address, None, false, all[at]));
                        }
                        return Some(node.address);
                    }
                },
            }
        }
        proof {
            crate::tables::model::lemma_nodes_at(self.primary@, nodes, self.store@, Seq::empty());
            assert forall|a: Seq<char>| #[trigger] nodes.contains_key(a) implies data_fits(def@, nodes[a]) by {
                let n = nodes[a];
                if n.kind == def@.kind {
                    assert(belongs(nodes, pick, RankBy::Address, None, false, n));
                    assert(all.contains(n));
                    let i = choose|i: int| 0 <= i < all.len() && all[i] == n;
                    assert(data_fits(def@, all[i]));
                }
            }
        }
        None
    }

    /// The first node of an index's kind, in the order of addresses, that a
    /// new text index would not take.
    pub(crate) fn unfit_for_text(&self, def: &TextIndexDef, cache: &mut RecordCache) -> (r: Option<String>)
        requires
            self.inv(),
            old(cache).wf(),
            agrees(old(cache)@, self.heap()),
        ensures
            final(cache).wf(),
            agrees(final(cache)@, self.heap()),
            match r {
                Some(a) => self@.nodes.contains_key(a@) && !text_fits(def@, self@.nodes[a@]),
                None => forall|a: Seq<char>| #[trigger]
                    self@.nodes.contains_key(a) ==> text_fits(def@, self@.nodes[a]),
            },
    {
        let ghost nodes = self@.nodes;
        let ghost pick = scanned(Some(def@.kind), None);
        let mut rows = self.scan_candidates(Some(&def.kind), None, None, false);
        let ghost all = rows.all();
        loop
            invariant
                self.inv(),
                nodes == self@.nodes,
                cache.wf(),
                agrees(cache@, self.heap()),
                rows.wf(self),
                rows.all() == all,
                pick == scanned(Some(def@.kind), None),
                is_listing(all, nodes, pick, RankBy::Address, None, false),
                forall|i: int| 0 <= i < rows.taken() ==> text_fits(def@, #[trigger] all[i]),
            ensures
                rows.taken() == all.len(),
            decreases all.len() - rows.taken(),
        {
            let ghost at = rows.taken() as int;
            match rows.next(self, cache) {
                None => {
                    break;
                },
                Some(node) => {
                    if !check_text_key(def, &node) {
                        proof {
                            assert(belongs(nodes, pick, RankBy::Address, None, false, all[at]));
                        }
                        return Some(node.address);
                    }
                },
            }
        }
        proof {
            crate::tables::model::lemma_nodes_at(self.primary@, nodes, self.store@, Seq::empty());
            assert forall|a: Seq<char>| #[trigger] nodes.contains_key(a) implies text_fits(def@, nodes[a]) by {
                let n = nodes[a];
                if n.kind == def@.kind {
                    assert(belongs(nodes, pick, RankBy::Address, None, false, n));
                    assert(all.contains(n));
                    let i = choose|i: int| 0 <= i < all.len() && all[i] == n;
                    assert(text_fits(def@, all[i]));
                }
            }
        }
        None
    }

    /// What speaks against an operation.
    pub(crate) fn validate(&self, operation: &Operation, cache: &mut RecordCache) -> (r: Result<(), OpError>)
        requires
            self.inv(),
            old(cache).wf(),
            agrees(old(cache)@, self.heap()),
        ensures
            final(cache).wf(),
            agrees(final(cache)@, self.heap()),
            match r {
                Ok(()) => fault(self@, operation@) is None,
                Err(e) => fault(self@, operation@) == Some(e),
            },
    {
        match operation {
            Operation::Archive(entry) => {
                if history_key(&entry.address, entry.version).len() > MAX_KEY_LEN {
                    Err(OpError::History)
                } else if !check_record(&HeapRecord::History(entry.copy())) {
                    Err(OpError::Record)
                } else {
                    Ok(())
                }
            },
            Operation::Insert(node) => match self.node_check(node) {
                Some(e) => Err(e),
                None => Ok(()),
            },
            Operation::InsertEdge(edge) => {
                if edge_out_key(&edge.from, &edge.kind, &edge.to).len() > MAX_KEY_LEN {
                    Err(OpError::Edge)
                } else if !check_record(&HeapRecord::Edge(edge.copy())) {
                    Err(OpError::Record)
                } else {
                    Ok(())
                }
            },
            Operation::CreateIndex(def) => match self.unfit_for_data(def, cache) {
                Some(_) => Err(OpError::Value),
                None => Ok(()),
            },
            Operation::CreateTextIndex(def) => match self.unfit_for_text(def, cache) {
                Some(_) => Err(OpError::Text),
                None => Ok(()),
            },
            _ => Ok(()),
        }
    }
}

} // verus!
