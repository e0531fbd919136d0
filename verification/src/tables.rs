//! The tables of a database: the heap and the indexes over it.
//!
//! Nodes, edges and superseded states are records in the heap. An index
//! leads to each of them by its address, and others find nodes by kind, by
//! owner, and by what declared indexes are over.

use vstd::prelude::*;

use crate::binary::{replay_users, UserOpRecord, UserOpView};
use crate::btree::{BTree, TreeError};
use crate::cache::CacheView;
use crate::defs::{
    IndexOpRecord, IndexOpView, ReferenceDef, ReferenceOpRecord, ReferenceOpView, TextIndexOpRecord, TextIndexOpView,
};
use crate::heap::{inactive, record_at, roomy, HeapView, RecordStore, StoreError, StoreView};
use crate::keys::{out_key, version_key};
use crate::location::location_of;
use crate::tables::lists::{
    data_defs, data_roomy, data_wf, reference_defs, text_defs, text_roomy, text_wf, DataIndex, TextIndex,
};
use crate::tables::model::{
    data_names, edges_ok, history_ok, index_ok, names_sorted, nodes_ok, reference_names, replay_data, replay_references,
    replay_text, text_names, DbView, Entries, NodeIndex, Nodes,
};
use crate::textmap::TextMap;
use crate::text::utf8;
use crate::types::{EdgeIdView, RecordLocation, UserRecord, UserView};
use crate::wal::OperationView;

pub mod answer;
mod apply;
pub mod audit;
pub mod backfill;
pub mod candidates;
pub mod check;
pub mod compact;
mod declare;
pub mod declared;
pub mod files;
pub mod fold;
pub mod group;
pub mod integrity;
pub mod listing;
pub mod lists;
pub mod lower;
pub mod memory;
pub mod model;
pub mod open;
pub mod plan;
pub mod query;
pub mod read;
pub mod refs;
pub mod replay;
pub mod rows;
pub mod settle;
pub mod sorted;
pub mod stage;
pub mod stats;
pub mod unique;
pub mod users;

verus! {

/// The tables of an open database.
pub struct Tables {
    pub(crate) store: RecordStore,
    pub(crate) primary: BTree,
    pub(crate) kind: BTree,
    pub(crate) owner: BTree,
    pub(crate) history: BTree,
    pub(crate) edge_out: BTree,
    pub(crate) edge_in: BTree,
    pub(crate) data: Vec<DataIndex>,
    pub(crate) text: Vec<TextIndex>,
    pub(crate) references: Vec<ReferenceDef>,
    pub(crate) users: TextMap<UserRecord>,
    pub(crate) user_log: Vec<UserOpRecord>,
    pub(crate) index_log: Vec<IndexOpRecord>,
    pub(crate) text_log: Vec<TextIndexOpRecord>,
    pub(crate) reference_log: Vec<ReferenceOpRecord>,
    pub(crate) db: Ghost<DbView>,
}

/// What went wrong underneath the tables.
#[derive(Clone, Copy, PartialEq, Eq, Debug, Structural)]
pub enum TableError {
    Tree(TreeError),
    Heap(StoreError),
}

pub open spec fn users_view(users: Map<Seq<char>, UserRecord>) -> Map<Seq<char>, UserView> {
    users.map_values(|u: UserRecord| u@)
}

pub open spec fn user_ops(log: Seq<UserOpRecord>) -> Seq<UserOpView> {
    Seq::new(log.len(), |i: int| log[i]@)
}

pub open spec fn index_ops(log: Seq<IndexOpRecord>) -> Seq<IndexOpView> {
    Seq::new(log.len(), |i: int| log[i]@)
}

pub open spec fn text_ops(log: Seq<TextIndexOpRecord>) -> Seq<TextIndexOpView> {
    Seq::new(log.len(), |i: int| log[i]@)
}

pub open spec fn reference_ops(log: Seq<ReferenceOpRecord>) -> Seq<ReferenceOpView> {
    Seq::new(log.len(), |i: int| log[i]@)
}

/// The data indexes have the keys of the nodes.
pub open spec fn data_ok(list: Seq<DataIndex>, nodes: Nodes) -> bool {
    forall|i: int|
        0 <= i < list.len() ==> index_ok(NodeIndex::Data((#[trigger] list[i]).def@), list[i].tree@, nodes)
}

/// The text indexes have the keys of the nodes.
pub open spec fn text_ok(list: Seq<TextIndex>, nodes: Nodes) -> bool {
    forall|i: int|
        0 <= i < list.len() ==> index_ok(NodeIndex::Text((#[trigger] list[i]).def@), list[i].tree@, nodes)
}

/// Every cached record is in the heap at its location.
pub open spec fn agrees(cache: CacheView, store: StoreView) -> bool {
    forall|i: int|
        0 <= i < cache.len() ==> record_at(store, (#[trigger] cache[i]).0) == Ok::<HeapView, StoreError>(
            HeapView::Node(cache[i].1),
        )
}

/// No entry leads into the segment.
pub open spec fn vacates(tree: Entries, segment: u32) -> bool {
    forall|k: Seq<u8>|
        tree.contains_key(k) && location_of(#[trigger] tree[k]) is Some ==> location_of(tree[k])->0.segment != segment
}

/// The tree has no generations left.
pub open spec fn worn_out(tree: BTree) -> bool {
    tree.generation() >= u64::MAX - 1
}

impl View for Tables {
    type V = DbView;

    closed spec fn view(&self) -> DbView {
        self.db@
    }
}

/// Where an index leads from a key.
pub open spec fn place_in(tree: Map<Seq<u8>, Seq<u8>>, k: Seq<u8>) -> Option<RecordLocation> {
    if tree.contains_key(k) {
        location_of(tree[k])
    } else {
        None
    }
}

impl Tables {
    /// Each part by itself is in order.
    pub(crate) open spec fn base(&self) -> bool {
        &&& self.store.wf()
        &&& self.primary.wf()
        &&& self.kind.wf()
        &&& self.owner.wf()
        &&& self.history.wf()
        &&& self.edge_out.wf()
        &&& self.edge_in.wf()
        &&& data_wf(self.data@)
        &&& text_wf(self.text@)
        &&& self.users.wf()
    }

    /// The indexes agree with what the tables hold.
    pub(crate) open spec fn linked(&self) -> bool {
        let db = self.db@;
        &&& nodes_ok(self.primary@, db.nodes, self.store@)
        &&& index_ok(NodeIndex::Kind, self.kind@, db.nodes)
        &&& index_ok(NodeIndex::Owner, self.owner@, db.nodes)
        &&& data_ok(self.data@, db.nodes)
        &&& text_ok(self.text@, db.nodes)
        &&& edges_ok(self.edge_out@, self.edge_in@, db.edges, self.store@)
        &&& history_ok(self.history@, db.history, self.store@)
    }

    /// The declarations and users are what their logs say.
    pub(crate) open spec fn declared(&self) -> bool {
        let db = self.db@;
        &&& data_defs(self.data@) == db.data
        &&& text_defs(self.text@) == db.text
        &&& reference_defs(self.references@) == db.references
        &&& users_view(self.users@) == db.users
        &&& names_sorted(data_names(db.data))
        &&& names_sorted(text_names(db.text))
        &&& names_sorted(reference_names(db.references))
        &&& replay_users(user_ops(self.user_log@)) == db.users
        &&& replay_data(index_ops(self.index_log@)) == db.data
        &&& replay_text(text_ops(self.text_log@)) == db.text
        &&& replay_references(reference_ops(self.reference_log@)) == db.references
    }

    /// The tables are in order.
    pub closed spec fn inv(&self) -> bool {
        &&& self.base()
        &&& self.linked()
        &&& self.declared()
    }

    /// Every part can take one change more.
    pub closed spec fn has_room(&self) -> bool {
        &&& roomy(self.store@)
        &&& self.primary.has_room_spec()
        &&& self.kind.has_room_spec()
        &&& self.owner.has_room_spec()
        &&& self.history.has_room_spec()
        &&& self.edge_out.has_room_spec()
        &&& self.edge_in.has_room_spec()
        &&& data_roomy(self.data@)
        &&& text_roomy(self.text@)
    }

    /// The record that an operation supersedes.
    pub closed spec fn replaced(&self, op: OperationView) -> Option<RecordLocation> {
        match op {
            OperationView::Archive(h) => place_in(self.history@, version_key(h.address, h.version)),
            OperationView::Insert(n) => place_in(self.primary@, utf8(n.address)),
            OperationView::Delete(a) => place_in(self.primary@, utf8(a)),
            OperationView::InsertEdge(e) => place_in(self.edge_out@, out_key(e.id())),
            OperationView::DeleteEdge(id) => place_in(self.edge_out@, out_key(id)),
            _ => None,
        }
    }

    /// What is declared is in the order of its names.
    pub proof fn lemma_well_named(&self)
        requires
            self.inv(),
        ensures
            replay::well_named(self@),
    {
    }

    /// Everything is found under the key that it has.
    pub proof fn lemma_keyed(&self)
        requires
            self.inv(),
        ensures
            forall|a: Seq<char>| #[trigger] self@.nodes.contains_key(a) ==> self@.nodes[a].address == a,
            forall|id: EdgeIdView| #[trigger]
                self@.edges.contains_key(id) ==> {
                    &&& self@.edges[id].from == id.from
                    &&& self@.edges[id].to == id.to
                    &&& self@.edges[id].kind == id.kind
                },
            forall|x: (Seq<char>, u64)| #[trigger]
                self@.history.contains_key(x) ==> self@.history[x].address == x.0 && self@.history[x].version == x.1,
    {
        reveal(nodes_ok);
        reveal(edges_ok);
        reveal(history_ok);
        assert forall|id: EdgeIdView| #[trigger] self@.edges.contains_key(id) implies {
            &&& self@.edges[id].from == id.from
            &&& self@.edges[id].to == id.to
            &&& self@.edges[id].kind == id.kind
        } by {
            assert(self@.edges[id].id() == id);
        }
    }

    /// Some index has no generations left.
    pub closed spec fn worn(&self) -> bool {
        ||| worn_out(self.primary)
        ||| worn_out(self.kind)
        ||| worn_out(self.owner)
        ||| worn_out(self.history)
        ||| worn_out(self.edge_out)
        ||| worn_out(self.edge_in)
        ||| exists|i: int| 0 <= i < self.data@.len() && worn_out((#[trigger] self.data@[i]).tree)
        ||| exists|i: int| 0 <= i < self.text@.len() && worn_out((#[trigger] self.text@[i]).tree)
    }

    /// No index leads into the segment, and none will: it takes no records
    /// any more.
    pub closed spec fn spare(&self, segment: u32) -> bool {
        &&& inactive(self.store@, segment)
        &&& vacates(self.primary@, segment)
        &&& vacates(self.history@, segment)
        &&& vacates(self.edge_out@, segment)
        &&& vacates(self.edge_in@, segment)
    }

    /// What is spare stays so.
    #[verifier::opaque]
    pub open spec fn keeps_spare(&self, after: &Tables) -> bool {
        forall|s: u32| #[trigger] self.spare(s) ==> after.spare(s)
    }

    /// What the indexes hold is committed in every one of them.
    pub closed spec fn settled(&self) -> bool {
        &&& self.primary.committed_entries() == self.primary@
        &&& self.kind.committed_entries() == self.kind@
        &&& self.owner.committed_entries() == self.owner@
        &&& self.history.committed_entries() == self.history@
        &&& self.edge_out.committed_entries() == self.edge_out@
        &&& self.edge_in.committed_entries() == self.edge_in@
        &&& forall|i: int|
            0 <= i < self.data@.len() ==> (#[trigger] self.data@[i]).tree.committed_entries() == self.data@[i].tree@
        &&& forall|i: int|
            0 <= i < self.text@.len() ==> (#[trigger] self.text@[i]).tree.committed_entries() == self.text@[i].tree@
    }

    /// What the heap holds.
    pub closed spec fn heap(&self) -> StoreView {
        self.store@
    }
}

} // verus!
